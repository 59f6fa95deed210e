//! The managed section: the part of a text from a start marker through the
//! next end marker.

use crate::text::{
    chars_of, find, find_between, lemma_find_from, lemma_first_occurrence_found,
    lemma_occurrence_avoids, lemma_occurs_left, lemma_occurs_right, no_occurrence, occurs_at,
    substring,
};
use vstd::prelude::*;

verus! {

/// Where the first section of `text` lies: from the first `start` marker
/// through the first `end` marker found at or after it. The second index is
/// one past the end marker's last character.
pub open spec fn section_bounds(text: Seq<char>, start: Seq<char>, end: Seq<char>) -> Option<
    (int, int),
> {
    match find(text, start) {
        Some(a) => match find(text.subrange(a, text.len() as int), end) {
            Some(off) => Some((a, a + off + end.len())),
            None => None,
        },
        None => None,
    }
}

/// The first section of `text`, markers included.
pub open spec fn first_section(text: Seq<char>, start: Seq<char>, end: Seq<char>) -> Option<
    Seq<char>,
> {
    match section_bounds(text, start, end) {
        Some((a, b)) => Some(text.subrange(a, b)),
        None => None,
    }
}

/// Where a cut begins for a section that starts at `a`: one character
/// earlier, the line feed that joins the section to what precedes it, unless
/// the section starts the text.
pub open spec fn cut_start(a: int) -> int {
    if a > 0 {
        a - 1
    } else {
        0
    }
}

/// `text` without the characters `from..to`.
pub open spec fn without_range(text: Seq<char>, from: int, to: int) -> Seq<char> {
    text.subrange(0, from) + text.subrange(to, text.len() as int)
}

/// `text` with its sections cut out, one after the other, each together with
/// the character before it, until no complete section is left. A start marker
/// with no end marker after it stays, and so does everything else. A cut that
/// would remove nothing ends the process.
pub open spec fn without_sections(text: Seq<char>, start: Seq<char>, end: Seq<char>) -> Seq<char>
    decreases text.len(),
{
    match section_bounds(text, start, end) {
        Some((a, b)) => if 0 <= cut_start(a) < b <= text.len() {
            without_sections(without_range(text, cut_start(a), b), start, end)
        } else {
            text
        },
        None => text,
    }
}

/// A text that holds no start marker holds no section, and cutting its
/// sections out leaves it as it is.
pub proof fn lemma_no_marker_no_change(text: Seq<char>, start: Seq<char>, end: Seq<char>)
    requires
        find(text, start) is None,
    ensures
        section_bounds(text, start, end) is None,
        without_sections(text, start, end) == text,
{
}

/// What is left when the sections have been cut out holds no section that
/// could be cut: cutting again changes nothing.
pub proof fn lemma_sections_cut_once(text: Seq<char>, start: Seq<char>, end: Seq<char>)
    ensures
        without_sections(without_sections(text, start, end), start, end) == without_sections(
            text,
            start,
            end,
        ),
        without_sections(text, start, end).len() <= text.len(),
    decreases text.len(),
{
    match section_bounds(text, start, end) {
        Some((a, b)) => {
            if 0 <= cut_start(a) < b <= text.len() {
                lemma_sections_cut_once(without_range(text, cut_start(a), b), start, end);
            }
        },
        None => {},
    }
}

/// A pair of markers that can frame a block of lines: neither holds a line
/// feed, and the end marker stands nowhere in the start marker.
pub open spec fn markers_fit(start: Seq<char>, end: Seq<char>) -> bool {
    &&& !start.contains('\n')
    &&& !end.contains('\n')
    &&& no_occurrence(start, end, 0)
}

/// What can stand between the two markers of a block: a text that begins and
/// ends with a line feed and holds no end marker. The line feed alone is the
/// body of a block without lines.
pub open spec fn is_block_body(body: Seq<char>, end: Seq<char>) -> bool {
    &&& body.len() > 0
    &&& body.first() == '\n'
    &&& body.last() == '\n'
    &&& find(body, end) is None
}

/// What can stand before a block at the end of a text: a text that ends with
/// a line feed and holds no start marker.
pub open spec fn is_block_free(rest: Seq<char>, start: Seq<char>) -> bool {
    &&& rest.len() > 0
    &&& rest.last() == '\n'
    &&& find(rest, start) is None
}

/// A text with one block at its end, closed by a line feed.
pub open spec fn with_block(rest: Seq<char>, start: Seq<char>, body: Seq<char>, end: Seq<char>) -> Seq<
    char,
> {
    rest + start + body + end + seq!['\n']
}

/// In a text with one block at its end, the block is the first section, and
/// cutting the sections out leaves what stood before the block.
pub proof fn lemma_block_at_end(rest: Seq<char>, start: Seq<char>, body: Seq<char>, end: Seq<char>)
    requires
        markers_fit(start, end),
        is_block_free(rest, start),
        is_block_body(body, end),
    ensures
        section_bounds(with_block(rest, start, body, end), start, end) == Some(
            (rest.len() as int, with_block(rest, start, body, end).len() - 1),
        ),
        first_section(with_block(rest, start, body, end), start, end) == Some(start + body + end),
        without_sections(with_block(rest, start, body, end), start, end) == rest,
{
    let text = with_block(rest, start, body, end);
    let block = start + body + end + seq!['\n'];
    let r = rest.len() as int;
    let n = text.len() as int;
    assert(text =~= rest + block);
    lemma_find_from(rest, start, 0);
    lemma_find_from(body, end, 0);
    // The start marker stands first where the block begins.
    assert(text.subrange(r, r + start.len()) =~= start);
    assert forall|j: int| 0 <= j < r implies !occurs_at(text, start, j) by {
        if j + start.len() <= r {
            lemma_occurs_left(rest, block, start, j);
        } else {
            assert(text[r - 1] == '\n');
            lemma_occurrence_avoids(text, start, j, r - 1);
        }
    }
    lemma_first_occurrence_found(text, start, 0, r);
    // The end marker stands first, from there on, where the block ends.
    let tail = text.subrange(r, n);
    assert(tail =~= block);
    let s = start.len() as int;
    let b = body.len() as int;
    assert(block.subrange(s + b, s + b + end.len()) =~= end);
    assert forall|j: int| 0 <= j < s + b implies !occurs_at(block, end, j) by {
        let after = body + end + seq!['\n'];
        assert(block =~= start + after);
        if j + end.len() <= s {
            lemma_occurs_left(start, after, end, j);
        } else if j < s {
            assert(block[s] == '\n');
            lemma_occurrence_avoids(block, end, j, s);
        } else if j + end.len() <= s + b {
            lemma_occurs_right(start, after, end, j);
            lemma_occurs_left(body, end + seq!['\n'], end, j - s);
            assert(after =~= body + (end + seq!['\n']));
        } else {
            assert(block[s + b - 1] == '\n');
            lemma_occurrence_avoids(block, end, j, s + b - 1);
        }
    }
    lemma_first_occurrence_found(block, end, 0, s + b);
    assert(section_bounds(text, start, end) == Some((r, n - 1)));
    assert(text.subrange(r, n - 1) =~= start + body + end);
    // The cut takes the line feed before the block and leaves the one after it.
    assert(without_range(text, r - 1, n - 1) =~= rest);
    lemma_no_marker_no_change(rest, start, end);
}

/// Taking the block out of a text that ends with one, and putting another
/// block in its place, gives the same text but for what stands between the
/// markers. The new text holds the new block as its one section, and taking
/// that out gives back what stood before the block.
pub proof fn lemma_block_replaced(
    rest: Seq<char>,
    start: Seq<char>,
    end: Seq<char>,
    body: Seq<char>,
    new_body: Seq<char>,
)
    requires
        markers_fit(start, end),
        is_block_free(rest, start),
        is_block_body(body, end),
        is_block_body(new_body, end),
    ensures
        ({
            let text = with_block(rest, start, body, end);
            let cut = without_sections(text, start, end);
            let again = cut + start + new_body + end + seq!['\n'];
            &&& cut == rest
            &&& again == with_block(rest, start, new_body, end)
            &&& first_section(again, start, end) == Some(start + new_body + end)
            &&& without_sections(again, start, end) == rest
            &&& find(without_sections(again, start, end), start) is None
        }),
{
    lemma_block_at_end(rest, start, body, end);
    lemma_block_at_end(rest, start, new_body, end);
}

/// Returns the first occurrence of `start_marker` through the next
/// `end_marker`, both included, or `None` where the text holds no start marker
/// or no end marker at or after it.
pub fn extract_section<'a>(content: &'a str, start_marker: &str, end_marker: &str) -> (r: Option<
    &'a str,
>)
    ensures
        match r {
            Some(section) => first_section(content@, start_marker@, end_marker@) == Some(
                section@,
            ),
            None => first_section(content@, start_marker@, end_marker@) is None,
        },
{
    let text = chars_of(content);
    let start = chars_of(start_marker);
    let end = chars_of(end_marker);
    let n = text.len();
    proof {
        assert(text@.subrange(0, n as int) =~= text@);
    }
    match find_between(&text, &start, 0, n) {
        Some(a) => match find_between(&text, &end, a, n) {
            Some(i) => Some(content.substring_char(a, i + end.len())),
            None => None,
        },
        None => None,
    }
}

/// Removes every section of `content`: while the text holds a start marker
/// with an end marker at or after it, the span from one character before the
/// start marker through the end marker is deleted. A start marker at the very
/// beginning of the text has no character before it, and the span then begins
/// with the marker. A text without a complete section comes back unchanged.
pub fn remove_section(content: &str, start_marker: &str, end_marker: &str) -> (r: String)
    ensures
        r@ == without_sections(content@, start_marker@, end_marker@),
        section_bounds(content@, start_marker@, end_marker@) is None ==> r@ == content@,
        without_sections(r@, start_marker@, end_marker@) == r@,
        r@.len() <= content@.len(),
{
    proof {
        lemma_sections_cut_once(content@, start_marker@, end_marker@);
    }
    let start = chars_of(start_marker);
    let end = chars_of(end_marker);
    let mut result = String::from_str(content);
    loop
        invariant
            start@ == start_marker@,
            end@ == end_marker@,
            without_sections(result@, start@, end@) == without_sections(
                content@,
                start@,
                end@,
            ),
            result@.len() <= content@.len(),
        ensures
            result@ == without_sections(content@, start@, end@),
            result@.len() <= content@.len(),
        decreases result@.len(),
    {
        let text = chars_of(result.as_str());
        let n = text.len();
        proof {
            assert(text@.subrange(0, n as int) =~= text@);
        }
        let a = match find_between(&text, &start, 0, n) {
            Some(a) => a,
            None => {
                break ;
            },
        };
        let b = match find_between(&text, &end, a, n) {
            Some(i) => i + end.len(),
            None => {
                break ;
            },
        };
        let from = if a > 0 {
            a - 1
        } else {
            0
        };
        if from >= b {
            break ;
        }
        let mut next = substring(result.as_str(), 0, from);
        next.append(result.as_str().substring_char(b, n));
        result = next;
    }
    result
}

} // verus!
