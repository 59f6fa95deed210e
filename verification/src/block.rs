//! The managed block: how it is read back from a startup file, and how a set
//! of aliases is written out as a new one.

use crate::alias::{
    alias_prefix, lemma_parsed_is_clean, parse_alias_line, parsed_alias, AliasSource, AliasView,
    SourceView,
};
use crate::alias_map::{map_clean, AliasMap, EntryView};
use crate::section::{
    extract_section, first_section, is_block_body, is_block_free, lemma_block_replaced,
    markers_fit, remove_section, with_block, without_sections,
};
use crate::text::{
    find, lemma_lines_hold_no_line_feed, lines_of, occurs_at, split_lines, trim_end, trim_start,
    views_of,
};
use vstd::prelude::*;

verus! {

/// The line that opens the managed block.
pub const MODULAR_ALIAS_START_MARKER: &'static str =
    "#--- BEGIN Modular Aliases [Block's contents will be replaced on build] ---";

/// The line that closes the managed block.
pub const MODULAR_ALIAS_END_MARKER: &'static str = "#--- END Modular Aliases ---";

/// The two markers can frame a block of lines, and neither is read as an
/// alias.
pub proof fn lemma_markers()
    ensures
        markers_fit(MODULAR_ALIAS_START_MARKER@, MODULAR_ALIAS_END_MARKER@),
        parsed_alias(MODULAR_ALIAS_START_MARKER@) is None,
        parsed_alias(MODULAR_ALIAS_END_MARKER@) is None,
{
    reveal_strlit("#--- BEGIN Modular Aliases [Block's contents will be replaced on build] ---");
    reveal_strlit("#--- END Modular Aliases ---");
    let s = MODULAR_ALIAS_START_MARKER@;
    let e = MODULAR_ALIAS_END_MARKER@;
    assert(s.len() == 75);
    assert(e.len() == 28);
    assert forall|i: int| 0 <= i < s.len() implies s[i] != '\n' by {}
    assert forall|i: int| 0 <= i < e.len() implies e[i] != '\n' by {}
    assert forall|i: int| 0 < i < s.len() implies s[i] != '#' by {}
    assert forall|j: int| 0 <= j implies !occurs_at(s, e, j) by {
        if occurs_at(s, e, j) {
            assert(s.subrange(j, j + e.len())[0] == e[0]);
            assert(s.subrange(j, j + e.len())[5] == e[5]);
        }
    }
    lemma_marker_is_no_alias(s);
    lemma_marker_is_no_alias(e);
}

/// A text that begins with `#` and ends with `-` is not read as an alias.
proof fn lemma_marker_is_no_alias(s: Seq<char>)
    requires
        s.len() > 0,
        s.first() == '#',
        s.last() == '-',
    ensures
        parsed_alias(s) is None,
{
    assert(trim_start(s) == s);
    assert(trim_end(s) == s);
    if occurs_at(s, alias_prefix(), 0) {
        assert(s.subrange(0, 6)[0] == 'a');
    }
}

/// Taking the managed block out of a startup file that ends with one, and
/// putting another block in its place, gives the same file but for what
/// stands between the markers: the new file holds the new block as its one
/// section, and taking that out gives back what stood before the block.
///
/// The block is the last thing in the file, begins on a line of its own, and
/// holds lines between its markers, none of them with the end marker in it.
/// What stands before the block holds no start marker.
pub proof fn lemma_managed_block_replaced(rest: Seq<char>, body: Seq<char>, new_body: Seq<char>)
    requires
        is_block_free(rest, MODULAR_ALIAS_START_MARKER@),
        is_block_body(body, MODULAR_ALIAS_END_MARKER@),
        is_block_body(new_body, MODULAR_ALIAS_END_MARKER@),
    ensures
        ({
            let s = MODULAR_ALIAS_START_MARKER@;
            let e = MODULAR_ALIAS_END_MARKER@;
            let cut = without_sections(with_block(rest, s, body, e), s, e);
            let again = cut + s + new_body + e + seq!['\n'];
            &&& cut == rest
            &&& again == with_block(rest, s, new_body, e)
            &&& first_section(again, s, e) == Some(s + new_body + e)
            &&& without_sections(again, s, e) == rest
            &&& find(without_sections(again, s, e), s) is None
        }),
{
    lemma_markers();
    lemma_block_replaced(
        rest,
        MODULAR_ALIAS_START_MARKER@,
        MODULAR_ALIAS_END_MARKER@,
        body,
        new_body,
    );
}

/// The aliases that a sequence of lines defines, each tagged with `source`.
/// Where two lines define the same name, the later one stands.
pub open spec fn aliases_of_lines(lines: Seq<Seq<char>>, source: SourceView) -> Map<
    Seq<char>,
    AliasView,
>
    decreases lines.len(),
{
    if lines.len() == 0 {
        Map::empty()
    } else {
        let before = aliases_of_lines(lines.drop_last(), source);
        match parsed_alias(lines.last()) {
            Some((name, value)) => before.insert(name, AliasView { value, source }),
            None => before,
        }
    }
}

/// What is read from lines without line feeds is clean.
pub proof fn lemma_aliases_of_lines_clean(lines: Seq<Seq<char>>, source: SourceView)
    requires
        forall|i: int| 0 <= i < lines.len() ==> !(#[trigger] lines[i]).contains('\n'),
    ensures
        map_clean(aliases_of_lines(lines, source)),
    decreases lines.len(),
{
    if lines.len() > 0 {
        assert forall|i: int| 0 <= i < lines.drop_last().len() implies !(
        #[trigger] lines.drop_last()[i]).contains('\n') by {
            assert(lines.drop_last()[i] == lines[i]);
        }
        lemma_aliases_of_lines_clean(lines.drop_last(), source);
        assert(!lines[lines.len() - 1].contains('\n'));
        lemma_parsed_is_clean(lines.last());
    }
}

/// Reads the aliases out of a section of text, line by line, and tags each
/// with `alias_source`. Lines that define no alias, the two marker lines among
/// them, are passed over.
pub fn parse_modular_aliases(section: &str, alias_source: AliasSource) -> (map: AliasMap)
    ensures
        map.wf(),
        map@ == aliases_of_lines(split_lines(section@), alias_source@),
        map_clean(map@),
{
    proof {
        lemma_lines_hold_no_line_feed(section@);
        lemma_aliases_of_lines_clean(split_lines(section@), alias_source@);
    }
    let lines = lines_of(section);
    let mut map = AliasMap::new();
    let mut i: usize = 0;
    while i < lines.len()
        invariant
            i <= lines.len(),
            map.wf(),
            views_of(lines@) == split_lines(section@),
            map@ == aliases_of_lines(views_of(lines@).subrange(0, i as int), alias_source@),
        decreases lines.len() - i,
    {
        proof {
            let done = views_of(lines@).subrange(0, i + 1);
            assert(done.drop_last() =~= views_of(lines@).subrange(0, i as int));
            assert(done.last() == lines@[i as int]@);
        }
        match parse_alias_line(lines[i].as_str(), alias_source.clone()) {
            Some((name, alias)) => {
                map.insert(name, alias);
            },
            None => {},
        }
        i += 1;
    }
    proof {
        assert(views_of(lines@).subrange(0, i as int) =~= views_of(lines@));
    }
    map
}

/// The line that defines one alias, with its line feed.
pub open spec fn alias_line(e: EntryView) -> Seq<char> {
    alias_prefix() + e.name + seq!['='] + e.alias.value + seq!['\n']
}

/// The lines that define the aliases of `es`, in their order.
pub open spec fn alias_lines(es: Seq<EntryView>) -> Seq<char>
    decreases es.len(),
{
    if es.len() == 0 {
        Seq::empty()
    } else {
        alias_lines(es.drop_last()) + alias_line(es.last())
    }
}

/// The block that holds the aliases of `es` between the two markers, each
/// marker on a line of its own.
pub open spec fn block_text(es: Seq<EntryView>, start: Seq<char>, end: Seq<char>) -> Seq<char> {
    start + seq!['\n'] + alias_lines(es) + end + seq!['\n']
}

/// Writes `aliases` out as a managed block: the start marker, one line
/// `alias NAME=VALUE` for each alias in the order of the names, and the end
/// marker.
pub fn render_block(aliases: &AliasMap) -> (block: String)
    ensures
        block@ == block_text(
            aliases.entries(),
            MODULAR_ALIAS_START_MARKER@,
            MODULAR_ALIAS_END_MARKER@,
        ),
{
    let mut block = String::from_str(MODULAR_ALIAS_START_MARKER);
    block.append("\n");
    let ghost head = block@;
    let mut i: usize = 0;
    proof {
        reveal_strlit("\n");
        reveal_strlit("alias ");
        reveal_strlit("=");
        assert("\n"@ =~= seq!['\n']);
        assert("alias "@ =~= alias_prefix());
        assert("="@ =~= seq!['=']);
        assert(aliases.entries().subrange(0, 0) =~= Seq::<EntryView>::empty());
        assert(head + alias_lines(Seq::<EntryView>::empty()) =~= head);
    }
    while i < aliases.len()
        invariant
            i <= aliases.entries().len(),
            head == MODULAR_ALIAS_START_MARKER@ + seq!['\n'],
            "\n"@ == seq!['\n'],
            "alias "@ == alias_prefix(),
            "="@ == seq!['='],
            block@ == head + alias_lines(aliases.entries().subrange(0, i as int)),
        decreases aliases.entries().len() - i,
    {
        proof {
            let done = aliases.entries().subrange(0, i + 1);
            assert(done.drop_last() =~= aliases.entries().subrange(0, i as int));
            assert(done.last() == aliases.entries()[i as int]);
        }
        let ghost before = block@;
        block.append("alias ");
        block.append(aliases.name_at(i));
        block.append("=");
        block.append(aliases.alias_at(i).value.as_str());
        block.append("\n");
        proof {
            assert(block@ =~= before + alias_line(aliases.entries()[i as int]));
            assert(block@ =~= head + alias_lines(aliases.entries().subrange(0, i + 1)));
        }
        i += 1;
    }
    proof {
        assert(aliases.entries().subrange(0, i as int) =~= aliases.entries());
    }
    block.append(MODULAR_ALIAS_END_MARKER);
    block.append("\n");
    block
}

/// The aliases of the managed block that `content` holds, tagged as coming
/// from it. A text without a block gives the empty set.
pub open spec fn persisted_aliases(content: Seq<char>) -> Map<Seq<char>, AliasView> {
    match first_section(content, MODULAR_ALIAS_START_MARKER@, MODULAR_ALIAS_END_MARKER@) {
        Some(section) => aliases_of_lines(split_lines(section), SourceView::Default),
        None => Map::empty(),
    }
}

/// The aliases read from a managed block are clean.
pub proof fn lemma_persisted_clean(content: Seq<char>)
    ensures
        map_clean(persisted_aliases(content)),
{
    match first_section(content, MODULAR_ALIAS_START_MARKER@, MODULAR_ALIAS_END_MARKER@) {
        Some(section) => {
            lemma_lines_hold_no_line_feed(section);
            lemma_aliases_of_lines_clean(split_lines(section), SourceView::Default);
        },
        None => {},
    }
}

/// Reads the aliases of the managed block that `content` holds.
pub fn existing_aliases(content: &str) -> (map: AliasMap)
    ensures
        map.wf(),
        map@ == persisted_aliases(content@),
        map_clean(map@),
{
    match extract_section(content, MODULAR_ALIAS_START_MARKER, MODULAR_ALIAS_END_MARKER) {
        Some(section) => parse_modular_aliases(section, AliasSource::Default),
        None => AliasMap::new(),
    }
}

/// The content of the startup file after a run: `content` without any
/// managed block, and the block of `es` after it.
pub open spec fn rebuilt(content: Seq<char>, es: Seq<EntryView>) -> Seq<char> {
    without_sections(content, MODULAR_ALIAS_START_MARKER@, MODULAR_ALIAS_END_MARKER@)
        + block_text(es, MODULAR_ALIAS_START_MARKER@, MODULAR_ALIAS_END_MARKER@)
}

/// The new content of the startup file: `content` without any managed block,
/// and the block of `aliases` after it.
pub fn rebuild(content: &str, aliases: &AliasMap) -> (r: String)
    ensures
        r@ == rebuilt(content@, aliases.entries()),
{
    let mut r = remove_section(content, MODULAR_ALIAS_START_MARKER, MODULAR_ALIAS_END_MARKER);
    let block = render_block(aliases);
    r.append(block.as_str());
    r
}

} // verus!
