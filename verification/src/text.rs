//! Text as a sequence of characters: searching, trimming and splitting.
//!
//! Every contract in this crate speaks of a string through its view, a
//! `Seq<char>`. The executable functions here work on `Vec<char>`, which gives
//! constant-time indexing, and are specified over those sequences.

use vstd::prelude::*;
use vstd::std_specs::iter::IteratorSpec;

verus! {

/// The characters of `s`, in order.
pub fn chars_of(s: &str) -> (v: Vec<char>)
    ensures
        v@ == s@,
{
    broadcast use vstd::string::group_string_axioms;

    let mut v: Vec<char> = Vec::new();
    let mut it = s.chars();
    loop
        invariant
            it.obeys_prophetic_iter_laws(),
            it.decrease() is Some,
            v@ + it.remaining() == s@,
        ensures
            v@ == s@,
        decreases it.decrease()->0,
    {
        match it.next() {
            Some(c) => {
                v.push(c);
            },
            None => {
                break ;
            },
        }
    }
    v
}

/// The characters `from..to` of `s`, as an owned string.
pub fn substring(s: &str, from: usize, to: usize) -> (r: String)
    requires
        from <= to <= s@.len(),
    ensures
        r@ == s@.subrange(from as int, to as int),
{
    String::from_str(s.substring_char(from, to))
}

/// `pat` stands in `text` at index `i`.
pub open spec fn occurs_at(text: Seq<char>, pat: Seq<char>, i: int) -> bool {
    &&& 0 <= i
    &&& i + pat.len() <= text.len()
    &&& text.subrange(i, i + pat.len()) == pat
}

/// `i` is the first index at or after `from` at which `pat` stands in `text`.
pub open spec fn is_first_occurrence(text: Seq<char>, pat: Seq<char>, from: int, i: int) -> bool {
    &&& from <= i
    &&& occurs_at(text, pat, i)
    &&& forall|j: int| from <= j < i ==> !occurs_at(text, pat, j)
}

/// `pat` stands nowhere in `text` at or after `from`.
pub open spec fn no_occurrence(text: Seq<char>, pat: Seq<char>, from: int) -> bool {
    forall|j: int| from <= j ==> !occurs_at(text, pat, j)
}

/// The first index at or after `from` at which `pat` stands in `text`.
pub open spec fn find_from(text: Seq<char>, pat: Seq<char>, from: int) -> Option<int>
    decreases text.len() + 1 - from,
{
    if from < 0 || from + pat.len() > text.len() {
        None
    } else if occurs_at(text, pat, from) {
        Some(from)
    } else {
        find_from(text, pat, from + 1)
    }
}

/// The first index at which `pat` stands in `text`. An empty `pat` stands at
/// index 0 of every text.
pub open spec fn find(text: Seq<char>, pat: Seq<char>) -> Option<int> {
    find_from(text, pat, 0)
}

/// `find_from` gives the first occurrence, and gives `None` only where there
/// is none.
pub proof fn lemma_find_from(text: Seq<char>, pat: Seq<char>, from: int)
    requires
        0 <= from,
    ensures
        match find_from(text, pat, from) {
            Some(i) => is_first_occurrence(text, pat, from, i),
            None => no_occurrence(text, pat, from),
        },
    decreases text.len() + 1 - from,
{
    if from + pat.len() > text.len() {
    } else if occurs_at(text, pat, from) {
    } else {
        lemma_find_from(text, pat, from + 1);
    }
}

/// A first occurrence is what `find_from` gives.
pub proof fn lemma_first_occurrence_found(text: Seq<char>, pat: Seq<char>, from: int, i: int)
    requires
        0 <= from,
        is_first_occurrence(text, pat, from, i),
    ensures
        find_from(text, pat, from) == Some(i),
{
    lemma_find_from(text, pat, from);
    match find_from(text, pat, from) {
        Some(k) => {
            if k < i {
                assert(!occurs_at(text, pat, k));
            } else if i < k {
                assert(!occurs_at(text, pat, i));
            }
        },
        None => {
            assert(!occurs_at(text, pat, i));
        },
    }
}

/// Where `pat` stands nowhere at or after `from`, `find_from` gives `None`.
pub proof fn lemma_no_occurrence_not_found(text: Seq<char>, pat: Seq<char>, from: int)
    requires
        0 <= from,
        no_occurrence(text, pat, from),
    ensures
        find_from(text, pat, from) is None,
{
    lemma_find_from(text, pat, from);
    if let Some(k) = find_from(text, pat, from) {
        assert(occurs_at(text, pat, k));
    }
}

/// Whether `pat` stands in `text` at index `i`.
pub fn matches_at(text: &Vec<char>, pat: &Vec<char>, i: usize) -> (r: bool)
    ensures
        r == occurs_at(text@, pat@, i as int),
{
    if pat.len() > text.len() || i > text.len() - pat.len() {
        return false;
    }
    let mut k: usize = 0;
    while k < pat.len()
        invariant
            k <= pat.len(),
            i + pat.len() <= text.len(),
            forall|j: int| 0 <= j < k ==> text@[i + j] == pat@[j],
        decreases pat.len() - k,
    {
        if text[i + k] != pat[k] {
            proof {
                assert(text@.subrange(i as int, i + pat.len())[k as int] == text@[i + k]);
            }
            return false;
        }
        k += 1;
    }
    proof {
        assert(text@.subrange(i as int, i + pat.len()) =~= pat@);
    }
    true
}

/// The first index at which `pat` stands in the characters `lo..hi` of
/// `text`, counted from the start of `text`.
pub fn find_between(text: &Vec<char>, pat: &Vec<char>, lo: usize, hi: usize) -> (r: Option<usize>)
    requires
        lo <= hi <= text.len(),
    ensures
        match r {
            Some(i) => {
                &&& lo <= i
                &&& i + pat.len() <= hi
                &&& find(text@.subrange(lo as int, hi as int), pat@) == Some(i - lo)
            },
            None => find(text@.subrange(lo as int, hi as int), pat@) is None,
        },
{
    let ghost part = text@.subrange(lo as int, hi as int);
    if pat.len() > hi - lo {
        proof {
            lemma_no_occurrence_not_found(part, pat@, 0);
        }
        return None;
    }
    let limit = hi - pat.len();
    let mut i: usize = lo;
    while i <= limit
        invariant
            lo <= i,
            lo <= hi <= text.len(),
            limit == hi - pat.len(),
            part == text@.subrange(lo as int, hi as int),
            forall|j: int| 0 <= j < i - lo ==> !occurs_at(part, pat@, j),
        decreases limit + 1 - i,
    {
        let here = matches_at(text, pat, i);
        proof {
            assert(part.subrange(i - lo, i - lo + pat.len()) =~= text@.subrange(
                i as int,
                i + pat.len(),
            ));
        }
        if here {
            proof {
                lemma_first_occurrence_found(part, pat@, 0, i - lo);
            }
            return Some(i);
        }
        if i == limit {
            proof {
                lemma_no_occurrence_not_found(part, pat@, 0);
            }
            return None;
        }
        i += 1;
    }
    proof {
        lemma_no_occurrence_not_found(part, pat@, 0);
    }
    None
}

/// An occurrence that ends within the first of two joined texts is an
/// occurrence in that text.
pub proof fn lemma_occurs_left(x: Seq<char>, y: Seq<char>, pat: Seq<char>, i: int)
    requires
        i + pat.len() <= x.len(),
    ensures
        occurs_at(x + y, pat, i) == occurs_at(x, pat, i),
{
    if 0 <= i {
        assert((x + y).subrange(i, i + pat.len()) =~= x.subrange(i, i + pat.len()));
    }
}

/// An occurrence that begins within the second of two joined texts is an
/// occurrence in that text.
pub proof fn lemma_occurs_right(x: Seq<char>, y: Seq<char>, pat: Seq<char>, i: int)
    requires
        x.len() <= i,
    ensures
        occurs_at(x + y, pat, i) == occurs_at(y, pat, i - x.len()),
{
    if i + pat.len() <= (x + y).len() {
        assert((x + y).subrange(i, i + pat.len()) =~= y.subrange(
            i - x.len(),
            i - x.len() + pat.len(),
        ));
    }
}

/// No occurrence of a pattern covers a character that the pattern does not
/// hold.
pub proof fn lemma_occurrence_avoids(text: Seq<char>, pat: Seq<char>, i: int, k: int)
    requires
        0 <= i <= k < i + pat.len(),
        k < text.len(),
        !pat.contains(text[k]),
    ensures
        !occurs_at(text, pat, i),
{
    if occurs_at(text, pat, i) {
        assert(text.subrange(i, i + pat.len())[k - i] == text[k]);
        assert(pat[k - i] == text[k]);
    }
}

/// A one-character pattern stands exactly where that character is.
pub proof fn lemma_occurs_single(text: Seq<char>, c: char, i: int)
    ensures
        occurs_at(text, seq![c], i) <==> (0 <= i < text.len() && text[i] == c),
{
    if 0 <= i < text.len() {
        if text[i] == c {
            assert(text.subrange(i, i + 1) =~= seq![c]);
        } else {
            assert(text.subrange(i, i + 1)[0] == text[i]);
        }
    }
}

/// The characters that count as white space: those with the Unicode property
/// `White_Space`.
pub open spec fn is_whitespace(c: char) -> bool {
    let n = c as u32;
    ||| 0x09 <= n <= 0x0D
    ||| n == 0x20
    ||| n == 0x85
    ||| n == 0xA0
    ||| n == 0x1680
    ||| 0x2000 <= n <= 0x200A
    ||| n == 0x2028
    ||| n == 0x2029
    ||| n == 0x202F
    ||| n == 0x205F
    ||| n == 0x3000
}

/// Whether `c` is white space.
pub fn is_whitespace_char(c: char) -> (r: bool)
    ensures
        r == is_whitespace(c),
{
    let n: u32 = c as u32;
    (0x09 <= n && n <= 0x0D) || n == 0x20 || n == 0x85 || n == 0xA0 || n == 0x1680 || (0x2000 <= n
        && n <= 0x200A) || n == 0x2028 || n == 0x2029 || n == 0x202F || n == 0x205F || n == 0x3000
}

/// `s` without its leading white space.
pub open spec fn trim_start(s: Seq<char>) -> Seq<char>
    decreases s.len(),
{
    if s.len() > 0 && is_whitespace(s.first()) {
        trim_start(s.drop_first())
    } else {
        s
    }
}

/// `s` without its trailing white space.
pub open spec fn trim_end(s: Seq<char>) -> Seq<char>
    decreases s.len(),
{
    if s.len() > 0 && is_whitespace(s.last()) {
        trim_end(s.drop_last())
    } else {
        s
    }
}

/// `s` without its leading and trailing white space.
pub open spec fn trim(s: Seq<char>) -> Seq<char> {
    trim_end(trim_start(s))
}

/// `s` neither begins nor ends with white space.
pub open spec fn is_trimmed(s: Seq<char>) -> bool {
    s.len() > 0 ==> !is_whitespace(s.first()) && !is_whitespace(s.last())
}

/// Trimming gives a trimmed text, and leaves a trimmed text as it is.
pub proof fn lemma_trim_is_trimmed(s: Seq<char>)
    ensures
        is_trimmed(trim(s)),
        is_trimmed(s) ==> trim(s) == s,
{
    lemma_trim_start_shape(s);
    lemma_trim_end_shape(trim_start(s));
}

/// `trim_start` drops a prefix, and what is left does not begin with white
/// space.
pub proof fn lemma_trim_start_shape(s: Seq<char>)
    ensures
        trim_start(s).len() <= s.len(),
        trim_start(s) == s.subrange(s.len() - trim_start(s).len(), s.len() as int),
        trim_start(s).len() > 0 ==> !is_whitespace(trim_start(s).first()),
    decreases s.len(),
{
    if s.len() > 0 && is_whitespace(s.first()) {
        let t = s.drop_first();
        lemma_trim_start_shape(t);
        assert(t.subrange(t.len() - trim_start(t).len(), t.len() as int) =~= s.subrange(
            s.len() - trim_start(t).len(),
            s.len() as int,
        ));
    } else {
        assert(s.subrange(0, s.len() as int) =~= s);
    }
}

/// `trim_end` drops a suffix, and what is left does not end with white space.
pub proof fn lemma_trim_end_shape(s: Seq<char>)
    ensures
        trim_end(s).len() <= s.len(),
        trim_end(s) == s.subrange(0, trim_end(s).len() as int),
        trim_end(s).len() > 0 ==> !is_whitespace(trim_end(s).last()),
        trim_end(s).len() > 0 ==> trim_end(s).first() == s.first(),
    decreases s.len(),
{
    if s.len() > 0 && is_whitespace(s.last()) {
        let t = s.drop_last();
        lemma_trim_end_shape(t);
        assert(t.subrange(0, trim_end(t).len() as int) =~= s.subrange(
            0,
            trim_end(t).len() as int,
        ));
    } else {
        assert(s.subrange(0, s.len() as int) =~= s);
    }
}

/// Trimming adds no character: what the text does not hold, its trimmed form
/// does not hold.
pub proof fn lemma_trim_within(s: Seq<char>, c: char)
    requires
        !s.contains(c),
    ensures
        !trim(s).contains(c),
{
    lemma_trim_start_shape(s);
    lemma_trim_end_shape(trim_start(s));
    let t = trim(s);
    if t.contains(c) {
        let i = choose|i: int| 0 <= i < t.len() && t[i] == c;
        let off = s.len() - trim_start(s).len();
        assert(trim_start(s)[i] == c);
        assert(s[off + i] == c);
    }
}

/// The bounds `(a, b)` of the trimmed form of the characters `lo..hi` of
/// `text`.
pub fn trim_between(text: &Vec<char>, lo: usize, hi: usize) -> (r: (usize, usize))
    requires
        lo <= hi <= text.len(),
    ensures
        lo <= r.0 <= r.1 <= hi,
        text@.subrange(r.0 as int, r.1 as int) == trim(text@.subrange(lo as int, hi as int)),
{
    let mut a: usize = lo;
    while a < hi && is_whitespace_char(text[a])
        invariant
            lo <= a <= hi <= text.len(),
            trim_start(text@.subrange(lo as int, hi as int)) == trim_start(
                text@.subrange(a as int, hi as int),
            ),
        decreases hi - a,
    {
        proof {
            assert(text@.subrange(a as int, hi as int).drop_first() =~= text@.subrange(
                a + 1,
                hi as int,
            ));
        }
        a += 1;
    }
    let mut b: usize = hi;
    while a < b && is_whitespace_char(text[b - 1])
        invariant
            a <= b <= hi <= text.len(),
            trim_end(text@.subrange(a as int, hi as int)) == trim_end(
                text@.subrange(a as int, b as int),
            ),
        decreases b - a,
    {
        proof {
            assert(text@.subrange(a as int, b as int).drop_last() =~= text@.subrange(
                a as int,
                b - 1,
            ));
        }
        b -= 1;
    }
    (a, b)
}

/// The lines of `text`: the pieces between its line feeds. A text with `n`
/// line feeds has `n + 1` lines, the last of them empty where the text ends
/// with a line feed.
pub open spec fn split_lines(text: Seq<char>) -> Seq<Seq<char>>
    decreases text.len(),
{
    match find(text, seq!['\n']) {
        Some(i) => if 0 <= i < text.len() {
            seq![text.subrange(0, i)] + split_lines(text.subrange(i + 1, text.len() as int))
        } else {
            seq![text]
        },
        None => seq![text],
    }
}

/// No line holds a line feed.
pub proof fn lemma_lines_hold_no_line_feed(text: Seq<char>)
    ensures
        forall|i: int|
            0 <= i < split_lines(text).len() ==> !(#[trigger] split_lines(text)[i]).contains('\n'),
    decreases text.len(),
{
    lemma_find_from(text, seq!['\n'], 0);
    match find(text, seq!['\n']) {
        Some(k) => {
            let head = text.subrange(0, k);
            let rest = text.subrange(k + 1, text.len() as int);
            lemma_lines_hold_no_line_feed(rest);
            assert forall|j: int| 0 <= j < head.len() implies head[j] != '\n' by {
                lemma_occurs_single(text, '\n', j);
            }
            assert forall|i: int| 0 <= i < split_lines(text).len() implies !(
            #[trigger] split_lines(text)[i]).contains('\n') by {
                if i > 0 {
                    assert(split_lines(text)[i] == split_lines(rest)[i - 1]);
                }
            }
        },
        None => {
            assert forall|j: int| 0 <= j < text.len() implies text[j] != '\n' by {
                lemma_occurs_single(text, '\n', j);
            }
        },
    }
}

/// The views of a sequence of strings.
pub open spec fn views_of(strings: Seq<String>) -> Seq<Seq<char>> {
    strings.map_values(|s: String| s@)
}

/// The lines of `text`, each as a string of its own.
pub fn lines_of(text: &str) -> (lines: Vec<String>)
    ensures
        views_of(lines@) == split_lines(text@),
{
    let chars = chars_of(text);
    let n = chars.len();
    let mut lines: Vec<String> = Vec::new();
    let mut start: usize = 0;
    let mut i: usize = 0;
    proof {
        assert(text@.subrange(0, n as int) =~= text@);
        assert(views_of(lines@) + split_lines(text@) =~= split_lines(text@));
    }
    while i < n
        invariant
            start <= i <= n,
            n == chars.len(),
            chars@ == text@,
            split_lines(text@) == views_of(lines@) + split_lines(
                text@.subrange(start as int, n as int),
            ),
            forall|j: int| start <= j < i ==> text@[j] != '\n',
        decreases n - i,
    {
        if chars[i] == '\n' {
            let line = substring(text, start, i);
            proof {
                let rest = text@.subrange(start as int, n as int);
                assert forall|j: int| 0 <= j < i - start implies !occurs_at(
                    rest,
                    seq!['\n'],
                    j,
                ) by {
                    lemma_occurs_single(rest, '\n', j);
                }
                lemma_occurs_single(rest, '\n', i - start);
                lemma_first_occurrence_found(rest, seq!['\n'], 0, i - start);
                assert(rest.subrange(0, i - start) =~= text@.subrange(start as int, i as int));
                assert(rest.subrange(i - start + 1, rest.len() as int) =~= text@.subrange(
                    i + 1,
                    n as int,
                ));
                assert(views_of(lines@.push(line)) =~= views_of(lines@) + seq![line@]);
            }
            lines.push(line);
            start = i + 1;
        }
        i += 1;
    }
    let line = substring(text, start, n);
    proof {
        let rest = text@.subrange(start as int, n as int);
        assert forall|j: int| 0 <= j implies !occurs_at(rest, seq!['\n'], j) by {
            lemma_occurs_single(rest, '\n', j);
        }
        lemma_no_occurrence_not_found(rest, seq!['\n'], 0);
        assert(views_of(lines@.push(line)) =~= views_of(lines@) + seq![line@]);
    }
    lines.push(line);
    lines
}

/// The dictionary order on texts, by the code points of their characters: a
/// proper prefix comes before the longer text, and otherwise the first
/// character that differs decides.
pub open spec fn lex_less(a: Seq<char>, b: Seq<char>) -> bool
    decreases a.len(),
{
    if b.len() == 0 {
        false
    } else if a.len() == 0 {
        true
    } else if a.first() != b.first() {
        a.first() < b.first()
    } else {
        lex_less(a.drop_first(), b.drop_first())
    }
}

/// No text comes before itself.
pub proof fn lemma_lex_irreflexive(a: Seq<char>)
    ensures
        !lex_less(a, a),
    decreases a.len(),
{
    if a.len() > 0 {
        lemma_lex_irreflexive(a.drop_first());
    }
}

/// The order is transitive.
pub proof fn lemma_lex_transitive(a: Seq<char>, b: Seq<char>, c: Seq<char>)
    requires
        lex_less(a, b),
        lex_less(b, c),
    ensures
        lex_less(a, c),
    decreases a.len(),
{
    if a.len() > 0 && a.first() == b.first() && b.first() == c.first() {
        lemma_lex_transitive(a.drop_first(), b.drop_first(), c.drop_first());
    }
}

/// How two texts stand to each other in the dictionary order.
#[derive(Clone, Copy, Debug, PartialEq, Eq, Structural)]
pub enum Rank {
    /// The first comes before the second.
    Before,
    /// The two are the same text.
    Same,
    /// The first comes after the second.
    After,
}

/// Ranks `a` against `b` in the dictionary order.
pub fn rank(a: &Vec<char>, b: &Vec<char>) -> (r: Rank)
    ensures
        match r {
            Rank::Before => lex_less(a@, b@),
            Rank::Same => a@ == b@,
            Rank::After => lex_less(b@, a@),
        },
{
    let mut i: usize = 0;
    proof {
        assert(a@.subrange(0, a.len() as int) =~= a@);
        assert(b@.subrange(0, b.len() as int) =~= b@);
    }
    while i < a.len() && i < b.len()
        invariant
            i <= a.len(),
            i <= b.len(),
            a@.subrange(0, i as int) == b@.subrange(0, i as int),
            lex_less(a@, b@) == lex_less(
                a@.subrange(i as int, a.len() as int),
                b@.subrange(i as int, b.len() as int),
            ),
            lex_less(b@, a@) == lex_less(
                b@.subrange(i as int, b.len() as int),
                a@.subrange(i as int, a.len() as int),
            ),
        decreases a.len() - i,
    {
        let x = a[i];
        let y = b[i];
        if x != y {
            return if x < y {
                Rank::Before
            } else {
                Rank::After
            };
        }
        proof {
            assert(a@.subrange(i as int, a.len() as int).drop_first() =~= a@.subrange(
                i + 1,
                a.len() as int,
            ));
            assert(b@.subrange(i as int, b.len() as int).drop_first() =~= b@.subrange(
                i + 1,
                b.len() as int,
            ));
            assert(a@.subrange(0, i + 1) =~= a@.subrange(0, i as int).push(x));
            assert(b@.subrange(0, i + 1) =~= b@.subrange(0, i as int).push(y));
        }
        i += 1;
    }
    if i < b.len() {
        Rank::Before
    } else if i < a.len() {
        Rank::After
    } else {
        proof {
            assert(a@ =~= a@.subrange(0, i as int));
            assert(b@ =~= b@.subrange(0, i as int));
        }
        Rank::Same
    }
}

/// Whether two strings hold the same text.
pub fn same_text(a: &str, b: &str) -> (r: bool)
    ensures
        r == (a@ == b@),
{
    let x = chars_of(a);
    let y = chars_of(b);
    proof {
        lemma_lex_irreflexive(a@);
    }
    match rank(&x, &y) {
        Rank::Same => true,
        _ => false,
    }
}

/// Whether `list` holds a string with the text of `s`.
pub fn holds_text(list: &Vec<String>, s: &str) -> (r: bool)
    ensures
        r == views_of(list@).contains(s@),
{
    let mut i: usize = 0;
    while i < list.len()
        invariant
            i <= list.len(),
            forall|j: int| 0 <= j < i ==> views_of(list@)[j] != s@,
        decreases list.len() - i,
    {
        if same_text(list[i].as_str(), s) {
            assert(views_of(list@)[i as int] == s@);
            return true;
        }
        i += 1;
    }
    false
}

} // verus!
