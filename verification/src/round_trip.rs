//! What is written out is read back as it was: a block made from a set of
//! aliases gives the same names and values when it is parsed, and a second
//! run over the same alias files leaves the startup file as the first run
//! wrote it.

use crate::alias::{alias_prefix, is_clean, parsed_alias, AliasView, SourceView};
use crate::alias_map::{
    all_clean, index_of, lemma_absent, lemma_clean_entries, lemma_insert_new,
    lemma_map_of_entry, map_of, sorted_by_name, EntryView,
};
use crate::merge::{
    lemma_finished_merge, lemma_merge_keeps_clean, lemma_run_inv, lemma_start_inv, MergeView,
};
use crate::block::{
    alias_line, alias_lines, aliases_of_lines, lemma_markers, lemma_persisted_clean,
    persisted_aliases, rebuilt,
    MODULAR_ALIAS_END_MARKER, MODULAR_ALIAS_START_MARKER,
};
use crate::conflict::ResolutionState;
use crate::section::{is_block_body, is_block_free, lemma_block_at_end, with_block, without_sections};
use crate::text::{
    find, is_whitespace, lemma_find_from, lemma_first_occurrence_found,
    lemma_lex_irreflexive, lemma_occurrence_avoids, lemma_occurs_right,
    lemma_lex_transitive, lemma_no_occurrence_not_found, lemma_occurs_single,
    lemma_trim_is_trimmed, lex_less, occurs_at, split_lines, trim,
};
use vstd::prelude::*;

verus! {

/// The line that defines one alias, without its line feed.
pub open spec fn line_text(e: EntryView) -> Seq<char> {
    alias_prefix() + e.name + seq!['='] + e.alias.value
}

/// The lines that define the aliases of `es`, one text for each.
pub open spec fn line_texts(es: Seq<EntryView>) -> Seq<Seq<char>> {
    es.map_values(|e: EntryView| line_text(e))
}

/// The line written for a clean entry is one line, and is read back as the
/// name and the value of that entry.
pub proof fn lemma_line_read_back(e: EntryView)
    requires
        is_clean(e.name, e.alias.value),
    ensures
        !line_text(e).contains('\n'),
        parsed_alias(line_text(e)) == Some((e.name, e.alias.value)),
{
    let t = line_text(e);
    let n = e.name.len() as int;
    assert(t.first() == 'a');
    assert(t.last() == if e.alias.value.len() > 0 {
        e.alias.value.last()
    } else {
        '='
    });
    assert(!is_whitespace('a') && !is_whitespace('='));
    lemma_trim_is_trimmed(t);
    assert(trim(t) == t);
    assert(t.subrange(0, 6) =~= alias_prefix());
    let rest = t.subrange(6, t.len() as int);
    assert(rest =~= e.name + seq!['='] + e.alias.value);
    assert forall|j: int| 0 <= j < n implies !occurs_at(rest, seq!['='], j) by {
        lemma_occurs_single(rest, '=', j);
        assert(rest[j] == e.name[j]);
    }
    lemma_occurs_single(rest, '=', n);
    lemma_first_occurrence_found(rest, seq!['='], 0, n);
    assert(rest.subrange(0, n) =~= e.name);
    assert(rest.subrange(n + 1, rest.len() as int) =~= e.alias.value);
    lemma_trim_is_trimmed(e.name);
    lemma_trim_is_trimmed(e.alias.value);
    assert forall|k: int| 0 <= k < t.len() implies t[k] != '\n' by {
        if k < 6 {
        } else if k < 6 + n {
            assert(t[k] == e.name[k - 6]);
        } else if k == 6 + n {
        } else {
            assert(t[k] == e.alias.value[k - 7 - n]);
        }
    }
}

/// A text without a line feed is one line.
pub proof fn lemma_split_one_line(x: Seq<char>)
    requires
        !x.contains('\n'),
    ensures
        split_lines(x) == seq![x],
{
    assert forall|j: int| 0 <= j implies !occurs_at(x, seq!['\n'], j) by {
        lemma_occurs_single(x, '\n', j);
    }
    lemma_no_occurrence_not_found(x, seq!['\n'], 0);
}

/// A text that begins with a line and its line feed splits into that line
/// and the lines of what follows.
pub proof fn lemma_split_first_line(x: Seq<char>, rest: Seq<char>)
    requires
        !x.contains('\n'),
    ensures
        split_lines(x + seq!['\n'] + rest) == seq![x] + split_lines(rest),
{
    let text = x + seq!['\n'] + rest;
    let n = x.len() as int;
    assert forall|j: int| 0 <= j < n implies !occurs_at(text, seq!['\n'], j) by {
        lemma_occurs_single(text, '\n', j);
        assert(text[j] == x[j]);
    }
    lemma_occurs_single(text, '\n', n);
    lemma_first_occurrence_found(text, seq!['\n'], 0, n);
    assert(text.subrange(0, n) =~= x);
    assert(text.subrange(n + 1, text.len() as int) =~= rest);
}

/// The lines written for clean entries, with a text after them, split into
/// one line for each entry and the lines of that text.
pub proof fn lemma_split_alias_lines(es: Seq<EntryView>, tail: Seq<char>)
    requires
        all_clean(es),
    ensures
        split_lines(alias_lines(es) + tail) == line_texts(es) + split_lines(tail),
    decreases es.len(),
{
    if es.len() == 0 {
        assert(alias_lines(es) + tail =~= tail);
        assert(line_texts(es) + split_lines(tail) =~= split_lines(tail));
    } else {
        let init = es.drop_last();
        let last = es.last();
        let more = alias_line(last) + tail;
        assert(is_clean(last.name, last.alias.value));
        assert forall|i: int| 0 <= i < init.len() implies is_clean((#[trigger] init[i]).name, init[i].alias.value) by {
            assert(init[i] == es[i]);
        }
        lemma_split_alias_lines(init, more);
        assert(alias_lines(es) + tail =~= alias_lines(init) + more);
        lemma_line_read_back(last);
        lemma_split_first_line(line_text(last), tail);
        assert(more =~= line_text(last) + seq!['\n'] + tail);
        assert(line_texts(es) =~= line_texts(init).push(line_text(last)));
        assert(line_texts(init) + (seq![line_text(last)] + split_lines(tail)) =~= line_texts(es)
            + split_lines(tail));
    }
}

/// `es` with every alias tagged as coming from the managed block.
pub open spec fn defaulted(es: Seq<EntryView>) -> Seq<EntryView> {
    es.map_values(
        |e: EntryView|
            EntryView {
                name: e.name,
                alias: AliasView { value: e.alias.value, source: SourceView::Default },
            },
    )
}

/// The lines written for a sorted set of clean entries, after a first line
/// that defines no alias, are read back as that set, tagged with `source`.
pub proof fn lemma_lines_read_back(first: Seq<char>, es: Seq<EntryView>)
    requires
        parsed_alias(first) is None,
        sorted_by_name(es),
        all_clean(es),
    ensures
        aliases_of_lines(seq![first] + line_texts(es), SourceView::Default) == map_of(
            defaulted(es),
        ),
        sorted_by_name(defaulted(es)),
    decreases es.len(),
{
    let lines = seq![first] + line_texts(es);
    assert forall|i: int, j: int| 0 <= i < j < defaulted(es).len() implies lex_less(
        #[trigger] defaulted(es)[i].name,
        #[trigger] defaulted(es)[j].name,
    ) by {
        assert(defaulted(es)[i].name == es[i].name && defaulted(es)[j].name == es[j].name);
    }
    if es.len() == 0 {
        assert(lines =~= seq![first]);
        assert(lines.drop_last() =~= Seq::<Seq<char>>::empty());
        assert(aliases_of_lines(lines.drop_last(), SourceView::Default) =~= Map::empty());
        assert(map_of(defaulted(es)) =~= Map::empty());
    } else {
        let init = es.drop_last();
        let last = es.last();
        assert(is_clean(last.name, last.alias.value));
        assert forall|i: int| 0 <= i < init.len() implies is_clean((#[trigger] init[i]).name, init[i].alias.value) by {
            assert(init[i] == es[i]);
        }
        assert forall|i: int, j: int| 0 <= i < j < init.len() implies lex_less(
            #[trigger] init[i].name,
            #[trigger] init[j].name,
        ) by {
            assert(init[i] == es[i] && init[j] == es[j]);
        }
        lemma_lines_read_back(first, init);
        lemma_line_read_back(last);
        assert(lines.drop_last() =~= seq![first] + line_texts(init));
        assert(lines.last() == line_text(last));
        let d = defaulted(es);
        let di = defaulted(init);
        assert(di =~= d.drop_last());
        assert(d =~= di.insert(di.len() as int, d.last()));
        assert forall|j: int| 0 <= j < di.len() implies lex_less(
            #[trigger] di[j].name,
            d.last().name,
        ) by {
            assert(di[j].name == es[j].name);
            assert(d.last().name == es[es.len() - 1].name);
        }
        lemma_insert_new(di, d.last(), di.len() as int);
    }
}

/// The block written for a set of aliases does not depend on where the
/// aliases came from.
pub proof fn lemma_lines_ignore_source(es: Seq<EntryView>)
    ensures
        alias_lines(defaulted(es)) == alias_lines(es),
    decreases es.len(),
{
    if es.len() > 0 {
        lemma_lines_ignore_source(es.drop_last());
        assert(defaulted(es).drop_last() =~= defaulted(es.drop_last()));
        assert(alias_line(defaulted(es).last()) == alias_line(es.last()));
    }
}

/// Without its last entry a sorted sequence stands for the map without that
/// entry's name.
proof fn lemma_map_of_init(es: Seq<EntryView>)
    requires
        sorted_by_name(es),
        es.len() > 0,
    ensures
        sorted_by_name(es.drop_last()),
        map_of(es.drop_last()) == map_of(es).remove(es.last().name),
{
    let init = es.drop_last();
    let last = es.last();
    assert forall|i: int, j: int| 0 <= i < j < init.len() implies lex_less(
        #[trigger] init[i].name,
        #[trigger] init[j].name,
    ) by {
        assert(init[i] == es[i] && init[j] == es[j]);
    }
    assert forall|j: int| 0 <= j < init.len() implies lex_less(
        #[trigger] init[j].name,
        last.name,
    ) by {
        assert(init[j] == es[j]);
    }
    lemma_insert_new(init, last, init.len() as int);
    lemma_absent(init, last.name, init.len() as int);
    assert(init.insert(init.len() as int, last) =~= es);
    assert(map_of(init) =~= map_of(es).remove(last.name));
}

/// The last name of a sorted sequence is the greatest: every name of the map
/// is that name or comes before it.
proof fn lemma_last_is_greatest(es: Seq<EntryView>, name: Seq<char>)
    requires
        sorted_by_name(es),
        map_of(es).contains_key(name),
    ensures
        es.len() > 0,
        name == es.last().name || lex_less(name, es.last().name),
{
    let i = index_of(es, name);
    if i < es.len() - 1 {
        assert(lex_less(es[i].name, es[es.len() - 1].name));
    }
}

/// A map of aliases has one sorted sequence of entries: two sorted sequences
/// that stand for the same map are the same.
pub proof fn lemma_sorted_entries_unique(a: Seq<EntryView>, b: Seq<EntryView>)
    requires
        sorted_by_name(a),
        sorted_by_name(b),
        map_of(a) == map_of(b),
    ensures
        a == b,
    decreases a.len(),
{
    if a.len() == 0 {
        if b.len() > 0 {
            lemma_map_of_entry(b, 0);
            assert(map_of(a).contains_key(b[0].name));
            let i = index_of(a, b[0].name);
            assert(0 <= i < a.len());
        }
        assert(a =~= b);
    } else {
        lemma_map_of_entry(a, a.len() - 1);
        lemma_last_is_greatest(b, a.last().name);
        lemma_map_of_entry(b, b.len() - 1);
        lemma_last_is_greatest(a, b.last().name);
        if a.last().name != b.last().name {
            lemma_lex_transitive(a.last().name, b.last().name, a.last().name);
            lemma_lex_irreflexive(a.last().name);
        }
        assert(a.last() == b.last());
        lemma_map_of_init(a);
        lemma_map_of_init(b);
        lemma_sorted_entries_unique(a.drop_last(), b.drop_last());
        assert(a =~= a.drop_last().push(a.last()));
        assert(b =~= b.drop_last().push(b.last()));
    }
}

/// Where the set on disk already holds every collected alias with its value,
/// the merge changes nothing and asks nothing.
pub proof fn lemma_merge_of_same_values(v: MergeView)
    requires
        v.waiting is None,
        v.next <= v.incoming.len(),
        v.merged == v.old,
        forall|j: int|
            0 <= j < v.incoming.len() ==> v.old.contains_key((#[trigger] v.incoming[j]).name)
                && v.old[v.incoming[j].name].value == v.incoming[j].alias.value,
    ensures
        v.run().finished(),
        v.run().merged == v.old,
    decreases v.incoming.len() - v.next,
{
    if v.next < v.incoming.len() {
        let e = v.incoming[v.next as int];
        assert(v.old.contains_key(e.name));
        lemma_merge_of_same_values(v.step());
    }
}

/// Tagging the aliases as coming from the managed block changes neither the
/// names of the map nor the value under any name.
proof fn lemma_defaulted_map(es: Seq<EntryView>, name: Seq<char>)
    requires
        sorted_by_name(es),
        sorted_by_name(defaulted(es)),
    ensures
        map_of(defaulted(es)).contains_key(name) == map_of(es).contains_key(name),
        map_of(es).contains_key(name) ==> map_of(defaulted(es))[name].value == map_of(
            es,
        )[name].value,
{
    let d = defaulted(es);
    if map_of(d).contains_key(name) {
        let i = index_of(d, name);
        assert(es[i].name == name);
    }
    if map_of(es).contains_key(name) {
        let i = index_of(es, name);
        assert(d[i].name == name);
        lemma_map_of_entry(es, i);
        lemma_map_of_entry(d, i);
    }
}

/// The alias lines of a set that is not empty end with a line feed.
proof fn lemma_lines_end_with_line_feed(es: Seq<EntryView>)
    requires
        es.len() > 0,
    ensures
        alias_lines(es).len() > 0,
        alias_lines(es).last() == '\n',
{
}

/// The alias lines of a set, after a line feed, can stand between the
/// markers if they hold no end marker.
proof fn lemma_lines_are_body(es: Seq<EntryView>, end: Seq<char>)
    requires
        !end.contains('\n'),
        find(alias_lines(es), end) is None,
    ensures
        is_block_body(seq!['\n'] + alias_lines(es), end),
{
    let lines = alias_lines(es);
    let body = seq!['\n'] + lines;
    if es.len() > 0 {
        lemma_lines_end_with_line_feed(es);
    }
    lemma_find_from(lines, end, 0);
    assert forall|j: int| 0 <= j implies !occurs_at(body, end, j) by {
        if j == 0 {
            if end.len() > 0 {
                lemma_occurrence_avoids(body, end, 0, 0);
            } else {
                assert(occurs_at(lines, end, 0)) by {
                    assert(lines.subrange(0, 0) =~= end);
                }
            }
        } else {
            lemma_occurs_right(seq!['\n'], lines, end, j);
        }
    }
    lemma_no_occurrence_not_found(body, end, 0);
}

/// A second run over the same alias files leaves the startup file as the
/// first run wrote it.
///
/// The first run found `base` and wrote `rebuilt(base, merged)`, where
/// `merged` holds every collected alias with its collected value: that is so
/// where no conflict of the merge was decided against the incoming value. The
/// second run finds that text. It reads the aliases of the block back as they
/// were written, its merge with the same collected aliases meets no conflict
/// and changes nothing, and the text that it writes is the text that it
/// found.
///
/// This holds where the text outside the block ends with a line feed and
/// holds no start marker, and where no alias line holds the end marker.
pub proof fn lemma_second_run_changes_nothing(
    base: Seq<char>,
    merged: Seq<EntryView>,
    collected: Seq<EntryView>,
    state: ResolutionState,
    second: Seq<EntryView>,
)
    requires
        sorted_by_name(merged),
        all_clean(merged),
        sorted_by_name(collected),
        forall|j: int|
            0 <= j < collected.len() ==> map_of(merged).contains_key(
                (#[trigger] collected[j]).name,
            ) && map_of(merged)[collected[j].name].value == collected[j].alias.value,
        find(alias_lines(merged), MODULAR_ALIAS_END_MARKER@) is None,
        is_block_free(
            without_sections(base, MODULAR_ALIAS_START_MARKER@, MODULAR_ALIAS_END_MARKER@),
            MODULAR_ALIAS_START_MARKER@,
        ),
        sorted_by_name(second),
        map_of(second) == MergeView::start(
            persisted_aliases(rebuilt(base, merged)),
            collected,
            state,
        ).run().merged,
    ensures
        persisted_aliases(rebuilt(base, merged)) == map_of(defaulted(merged)),
        MergeView::start(persisted_aliases(rebuilt(base, merged)), collected, state).run().finished(),
        rebuilt(rebuilt(base, merged), second) == rebuilt(base, merged),
{
    let s = MODULAR_ALIAS_START_MARKER@;
    let e = MODULAR_ALIAS_END_MARKER@;
    let rest = without_sections(base, s, e);
    let lines = alias_lines(merged);
    let body = seq!['\n'] + lines;
    let text = rebuilt(base, merged);
    lemma_markers();
    lemma_lines_are_body(merged, e);
    assert(text =~= with_block(rest, s, body, e));
    lemma_block_at_end(rest, s, body, e);
    // The block is read back as it was written.
    let section = s + body + e;
    assert(section =~= s + seq!['\n'] + (lines + e));
    lemma_split_first_line(s, lines + e);
    lemma_split_alias_lines(merged, e);
    lemma_split_one_line(e);
    let read = split_lines(section);
    assert(read =~= (seq![s] + line_texts(merged)).push(e));
    assert(read.drop_last() =~= seq![s] + line_texts(merged));
    lemma_lines_read_back(s, merged);
    let persisted = persisted_aliases(text);
    assert(persisted == map_of(defaulted(merged)));
    // The merge has nothing to do.
    let v = MergeView::start(persisted, collected, state);
    assert forall|j: int| 0 <= j < collected.len() implies persisted.contains_key(
        (#[trigger] collected[j]).name,
    ) && persisted[collected[j].name].value == collected[j].alias.value by {
        lemma_defaulted_map(merged, collected[j].name);
    }
    lemma_merge_of_same_values(v);
    // What is written is what was found.
    lemma_sorted_entries_unique(second, defaulted(merged));
    lemma_lines_ignore_source(merged);
}

/// Without auto-confirm, a second run over the same alias files leaves the
/// startup file as the first run wrote it.
///
/// `first` is what the first run merged from the block of `base` and the
/// collected aliases, and `second` is what the second run merged from the
/// block that the first run wrote and the same collected aliases. Without
/// auto-confirm neither merge asks anything, and each name with two values
/// takes the collected one.
///
/// This holds where the text outside the block ends with a line feed and
/// holds no start marker, and where no alias line holds the end marker.
pub proof fn lemma_second_run_without_questions(
    base: Seq<char>,
    collected: Seq<EntryView>,
    state: ResolutionState,
    first: Seq<EntryView>,
    second: Seq<EntryView>,
)
    requires
        !state.auto_confirm,
        sorted_by_name(collected),
        all_clean(collected),
        sorted_by_name(first),
        map_of(first) == MergeView::start(persisted_aliases(base), collected, state).run().merged,
        find(alias_lines(first), MODULAR_ALIAS_END_MARKER@) is None,
        is_block_free(
            without_sections(base, MODULAR_ALIAS_START_MARKER@, MODULAR_ALIAS_END_MARKER@),
            MODULAR_ALIAS_START_MARKER@,
        ),
        sorted_by_name(second),
        map_of(second) == MergeView::start(
            persisted_aliases(rebuilt(base, first)),
            collected,
            state,
        ).run().merged,
    ensures
        MergeView::start(persisted_aliases(base), collected, state).run().finished(),
        MergeView::start(persisted_aliases(rebuilt(base, first)), collected, state).run().finished(),
        rebuilt(rebuilt(base, first), second) == rebuilt(base, first),
{
    let start = MergeView::start(persisted_aliases(base), collected, state);
    let end = start.run();
    lemma_start_inv(persisted_aliases(base), collected, state);
    lemma_run_inv(start);
    lemma_finished_merge(end);
    lemma_persisted_clean(base);
    lemma_merge_keeps_clean(end);
    lemma_clean_entries(first);
    assert forall|j: int| 0 <= j < collected.len() implies map_of(first).contains_key(
        (#[trigger] collected[j]).name,
    ) && map_of(first)[collected[j].name].value == collected[j].alias.value by {
        lemma_map_of_entry(collected, j);
    }
    lemma_second_run_changes_nothing(base, first, collected, state, second);
}

} // verus!
