//! Task checkboxes in the source text.
use crate::text;
use crate::text::{find_char, line_end_at, line_start_at, part, with_char, Text};
use vstd::prelude::*;

verus! {

/// The status character of the checkbox on a line: the first `[` must open it.
pub open spec fn box_at(line: Seq<char>) -> Option<int> {
    match text::index_of(line, '[', 0) {
        Some(i) => if i + 2 < line.len() && line[i + 2] == ']' && (line[i + 1] == ' ' || line[i + 1]
            == 'x' || line[i + 1] == 'X') {
            Some(i + 1)
        } else {
            None
        },
        None => None,
    }
}

/// The other state of a checkbox.
pub open spec fn flipped(c: char) -> char {
    if c == 'x' || c == 'X' {
        ' '
    } else {
        'x'
    }
}

/// The content with the checkbox on the line of character `i` flipped.
pub open spec fn task_flipped(s: Seq<char>, i: int) -> Option<Seq<char>> {
    let a = text::line_start_of(s, i);
    match box_at(s.subrange(a, text::line_end_from(s, i))) {
        Some(k) => Some(s.update(a + k, flipped(s[a + k]))),
        None => None,
    }
}

/// Toggles the task checkbox on the source line containing byte `offset`. Gives
/// the full `content` with that one checkbox flipped (`[ ]` ↔ `[x]`), or `None`
/// if there is no task checkbox on that line or the offset lies past the end.
pub fn toggle_task_at(content: &str, offset: usize) -> (r: Option<String>)
    requires
        offset <= text::blen(content@) ==> text::on_boundary(content@, offset as int),
    ensures
        r is Some == (offset <= text::blen(content@) && task_flipped(
            content@,
            text::index_at(content@, offset as int),
        ) is Some),
        r is Some ==> r->0@ == task_flipped(content@, text::index_at(content@, offset as int))->0,
{
    let t = Text::new(content);
    let s = t.chars.as_slice();
    let n: usize = s.len();
    proof {
        text::lemma_offset_end(content@);
    }
    assert(t.offs@[n as int] == text::offset(content@, n as int));
    if offset > t.offs[n] {
        return None;
    }
    let i: usize = match t.index_of(offset) {
        Some(i) => i,
        None => {
            return None;
        },
    };
    let a: usize = line_start_at(s, i);
    let b: usize = line_end_at(s, i);
    let line = part(s, a, b);
    let m: usize = line.len();
    match find_char(line, '[', 0) {
        Some(k) => {
            if m >= 3 && k < m - 2 && line[k + 2] == ']' && (line[k + 1] == ' ' || line[k + 1]
                == 'x' || line[k + 1] == 'X') {
                assert(line@[k + 1] == s@[a + k + 1]);
                let c: char = if line[k + 1] == 'x' || line[k + 1] == 'X' {
                    ' '
                } else {
                    'x'
                };
                Some(with_char(s, a + k + 1, c))
            } else {
                None
            }
        },
        None => None,
    }
}

// --- Laws ---

proof fn lemma_index_update(s: Seq<char>, c: char, i: int, k: int, d: char)
    requires
        0 <= i,
        0 <= k < s.len(),
        s[k] != c,
        d != c,
    ensures
        text::index_of(s.update(k, d), c, i) == text::index_of(s, c, i),
    decreases s.len() - i,
{
    if i < s.len() && s[i] != c {
        lemma_index_update(s, c, i + 1, k, d);
    }
}

proof fn lemma_box_flip(line: Seq<char>)
    requires
        box_at(line) is Some,
    ensures
        ({
            let k = box_at(line)->0;
            &&& 0 < k < line.len()
            &&& (line[k] == ' ' || line[k] == 'x' || line[k] == 'X')
            &&& box_at(line.update(k, flipped(line[k]))) == Some(k)
        }),
{
    text::lemma_index_of(line, '[', 0);
    let k = box_at(line)->0;
    lemma_index_update(line, '[', 0, k, flipped(line[k]));
}

/// A toggle swaps one ASCII character for another: no length and no offset
/// changes.
pub proof fn law_task_keeps_offsets(s: Seq<char>, i: int, j: int)
    requires
        0 <= i <= s.len(),
        0 <= j <= s.len(),
        task_flipped(s, i) is Some,
    ensures
        task_flipped(s, i)->0.len() == s.len(),
        text::offset(task_flipped(s, i)->0, j) == text::offset(s, j),
{
    let a = text::line_start_of(s, i);
    let b = text::line_end_from(s, i);
    text::lemma_line_start(s, i);
    text::lemma_index_of(s, '\n', i);
    let line = s.subrange(a, b);
    lemma_box_flip(line);
    let k = box_at(line)->0;
    assert(line[k] == s[a + k]);
    text::lemma_offset_update(s, a + k, flipped(s[a + k]), j);
}

/// Toggling twice gives the content back, except that a capital `X` comes back
/// small.
pub proof fn law_task_twice_is_identity(s: Seq<char>, i: int)
    requires
        0 <= i <= s.len(),
        task_flipped(s, i) is Some,
    ensures
        ({
            let a = text::line_start_of(s, i);
            let k = a + box_at(s.subrange(a, text::line_end_from(s, i)))->0;
            let twice = task_flipped(task_flipped(s, i)->0, i);
            &&& s[k] == 'X' ==> twice == Some(s.update(k, 'x'))
            &&& s[k] != 'X' ==> twice == Some(s)
        }),
{
    let a = text::line_start_of(s, i);
    let b = text::line_end_from(s, i);
    text::lemma_line_start(s, i);
    text::lemma_index_of(s, '\n', i);
    let line = s.subrange(a, b);
    lemma_box_flip(line);
    let k = box_at(line)->0;
    assert(line[k] == s[a + k]);
    let c = flipped(s[a + k]);
    let s2 = s.update(a + k, c);
    text::lemma_line_start_update(s, i, a + k, c);
    text::lemma_line_end_update(s, i, a + k, c);
    assert(s2.subrange(a, b) =~= line.update(k, c));
    assert(s2.update(a + k, flipped(c)) =~= s.update(a + k, flipped(c)));
    if s[a + k] != 'X' {
        assert(s.update(a + k, s[a + k]) =~= s);
    }
}

} // verus!
