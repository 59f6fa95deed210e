//! An alias, where it came from, and how a line of text is read as one.

use crate::text::{
    chars_of, find, find_between, is_trimmed, lemma_find_from, lemma_occurs_single,
    lemma_trim_is_trimmed, lemma_trim_within, matches_at, occurs_at, substring, trim,
    trim_between,
};
use vstd::prelude::*;

verus! {

/// Where an alias was found.
#[derive(Debug, PartialEq, Eq)]
pub enum AliasSource {
    /// In the file with this path.
    Path(String),
    /// In the managed block that was already in the startup file.
    Default,
}

/// An `AliasSource` as a plain value.
pub enum SourceView {
    Path(Seq<char>),
    Default,
}

impl View for AliasSource {
    type V = SourceView;

    open spec fn view(&self) -> SourceView {
        match self {
            AliasSource::Path(path) => SourceView::Path(path@),
            AliasSource::Default => SourceView::Default,
        }
    }
}

impl SourceView {
    /// The text that names this source when it is shown.
    pub open spec fn path(self) -> Seq<char> {
        match self {
            SourceView::Path(path) => path,
            SourceView::Default => seq!['d', 'e', 'f', 'a', 'u', 'l', 't'],
        }
    }
}

impl Clone for AliasSource {
    fn clone(&self) -> (r: Self)
        ensures
            r == *self,
    {
        match self {
            AliasSource::Path(path) => AliasSource::Path(path.clone()),
            AliasSource::Default => AliasSource::Default,
        }
    }
}

impl AliasSource {
    /// The text that names this source when it is shown: the path of a file,
    /// or `default` for the managed block.
    pub fn get_path(&self) -> (r: String)
        ensures
            r@ == self@.path(),
    {
        match self {
            AliasSource::Path(path) => path.clone(),
            AliasSource::Default => {
                proof {
                    reveal_strlit("default");
                }
                assert("default"@ =~= SourceView::Default.path());
                String::from_str("default")
            },
        }
    }
}

/// The value of an alias and where it was found. The name is kept beside it,
/// as the key under which the alias is stored.
#[derive(Debug, PartialEq, Eq)]
pub struct Alias {
    /// The text right of the `=`, as written.
    pub value: String,
    /// Where the alias was found. It is shown to the user and plays no part
    /// in merging.
    pub source: AliasSource,
}

/// An `Alias` as a plain value.
pub struct AliasView {
    pub value: Seq<char>,
    pub source: SourceView,
}

impl View for Alias {
    type V = AliasView;

    open spec fn view(&self) -> AliasView {
        AliasView { value: self.value@, source: self.source@ }
    }
}

impl Clone for Alias {
    fn clone(&self) -> (r: Self)
        ensures
            r == *self,
    {
        Alias { value: self.value.clone(), source: self.source.clone() }
    }
}

/// The word that opens an alias line, with the space after it.
pub open spec fn alias_prefix() -> Seq<char> {
    seq!['a', 'l', 'i', 'a', 's', ' ']
}

/// What a line defines: the name and the value of an alias, or nothing. The
/// line is trimmed and must then begin with `alias` and a space. What follows
/// is split at its first `=`, and both sides are trimmed. Without an `=` the
/// line defines nothing.
pub open spec fn parsed_alias(line: Seq<char>) -> Option<(Seq<char>, Seq<char>)> {
    let t = trim(line);
    if occurs_at(t, alias_prefix(), 0) {
        let rest = t.subrange(alias_prefix().len() as int, t.len() as int);
        match find(rest, seq!['=']) {
            Some(i) => Some(
                (trim(rest.subrange(0, i)), trim(rest.subrange(i + 1, rest.len() as int))),
            ),
            None => None,
        }
    } else {
        None
    }
}

/// A text as the parser gives it: one line, without white space at either
/// end.
pub open spec fn is_plain(s: Seq<char>) -> bool {
    is_trimmed(s) && !s.contains('\n')
}

/// A name and a value as the parser gives them: both are plain, and the name
/// holds no `=`.
pub open spec fn is_clean(name: Seq<char>, value: Seq<char>) -> bool {
    &&& is_plain(name)
    &&& is_plain(value)
    &&& !name.contains('=')
}

/// What is read from one line is clean.
pub proof fn lemma_parsed_is_clean(line: Seq<char>)
    requires
        !line.contains('\n'),
    ensures
        parsed_alias(line) matches Some((name, value)) ==> is_clean(name, value),
{
    let t = trim(line);
    lemma_trim_within(line, '\n');
    if occurs_at(t, alias_prefix(), 0) {
        let rest = t.subrange(alias_prefix().len() as int, t.len() as int);
        lemma_find_from(rest, seq!['='], 0);
        if let Some(i) = find(rest, seq!['=']) {
            let left = rest.subrange(0, i);
            let right = rest.subrange(i + 1, rest.len() as int);
            assert forall|j: int| 0 <= j < left.len() implies left[j] != '=' && left[j]
                != '\n' by {
                lemma_occurs_single(rest, '=', j);
                assert(left[j] == t[j + 6]);
            }
            assert forall|j: int| 0 <= j < right.len() implies right[j] != '\n' by {
                assert(right[j] == t[j + i + 7]);
            }
            lemma_trim_within(left, '=');
            lemma_trim_within(left, '\n');
            lemma_trim_within(right, '\n');
            lemma_trim_is_trimmed(left);
            lemma_trim_is_trimmed(right);
        }
    }
}

/// Reads `line` as an alias definition and tags the result with
/// `alias_source`. Returns the name and the alias, or `None` where the line
/// defines none.
pub fn parse_alias_line(line: &str, alias_source: AliasSource) -> (r: Option<(String, Alias)>)
    ensures
        match r {
            Some((name, alias)) => {
                &&& parsed_alias(line@) == Some((name@, alias.value@))
                &&& alias.source == alias_source
            },
            None => parsed_alias(line@) is None,
        },
{
    let text = chars_of(line);
    let (a, b) = trim_between(&text, 0, text.len());
    let prefix: Vec<char> = vec!['a', 'l', 'i', 'a', 's', ' '];
    let ghost t = trim(line@);
    proof {
        assert(text@.subrange(0, text.len() as int) =~= text@);
        assert(prefix@ =~= alias_prefix());
    }
    if b - a < 6 {
        return None;
    }
    proof {
        assert(t.subrange(0, 6) =~= text@.subrange(a as int, a + 6));
    }
    if !matches_at(&text, &prefix, a) {
        return None;
    }
    let ghost rest = t.subrange(6, t.len() as int);
    let sign: Vec<char> = vec!['='];
    proof {
        assert(sign@ =~= seq!['=']);
        assert(rest =~= text@.subrange(a + 6, b as int));
    }
    match find_between(&text, &sign, a + 6, b) {
        Some(i) => {
            let (na, nb) = trim_between(&text, a + 6, i);
            let (va, vb) = trim_between(&text, i + 1, b);
            proof {
                assert(rest.subrange(0, i - (a + 6)) =~= text@.subrange(a + 6, i as int));
                assert(rest.subrange(i - (a + 6) + 1, rest.len() as int) =~= text@.subrange(
                    i + 1,
                    b as int,
                ));
            }
            let name = substring(line, na, nb);
            let value = substring(line, va, vb);
            Some((name, Alias { value, source: alias_source }))
        },
        None => None,
    }
}

} // verus!
