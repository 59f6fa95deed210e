//! A set of aliases keyed by name, kept in the order of their names.

use crate::alias::{is_clean, Alias, AliasView};
use crate::text::{
    chars_of, lemma_lex_irreflexive, lemma_lex_transitive, lex_less, rank, Rank,
};
use vstd::prelude::*;

verus! {

/// One alias under its name.
#[derive(Debug)]
pub struct Entry {
    name: String,
    alias: Alias,
}

/// An `Entry` as a plain value.
pub struct EntryView {
    pub name: Seq<char>,
    pub alias: AliasView,
}

impl View for Entry {
    type V = EntryView;

    closed spec fn view(&self) -> EntryView {
        EntryView { name: self.name@, alias: self.alias@ }
    }
}

/// The names of `es` ascend strictly in the dictionary order, so that no name
/// occurs twice.
pub open spec fn sorted_by_name(es: Seq<EntryView>) -> bool {
    forall|i: int, j: int| 0 <= i < j < es.len() ==> lex_less(#[trigger] es[i].name, #[trigger] es[j].name)
}

/// `es` holds an entry named `name`.
pub open spec fn has_name(es: Seq<EntryView>, name: Seq<char>) -> bool {
    exists|i: int| 0 <= i < es.len() && #[trigger] es[i].name == name
}

/// The index of an entry of `es` named `name`.
pub open spec fn index_of(es: Seq<EntryView>, name: Seq<char>) -> int {
    choose|i: int| 0 <= i < es.len() && #[trigger] es[i].name == name
}

/// The map from each name in `es` to its alias.
pub open spec fn map_of(es: Seq<EntryView>) -> Map<Seq<char>, AliasView> {
    Map::new(|name: Seq<char>| has_name(es, name), |name: Seq<char>| es[index_of(es, name)].alias)
}

/// Every entry of `es` is as the parser gives it.
pub open spec fn all_clean(es: Seq<EntryView>) -> bool {
    forall|i: int| 0 <= i < es.len() ==> is_clean((#[trigger] es[i]).name, es[i].alias.value)
}

/// Every pair of `map` is as the parser gives it.
pub open spec fn map_clean(map: Map<Seq<char>, AliasView>) -> bool {
    forall|name: Seq<char>| map.contains_key(name) ==> is_clean(name, (#[trigger] map[name]).value)
}

/// A sorted sequence is clean exactly where its map is.
pub proof fn lemma_clean_entries(es: Seq<EntryView>)
    requires
        sorted_by_name(es),
    ensures
        all_clean(es) == map_clean(map_of(es)),
{
    let m = map_of(es);
    if all_clean(es) {
        assert forall|name: Seq<char>| m.contains_key(name) implies is_clean(
            name,
            (#[trigger] m[name]).value,
        ) by {
            lemma_map_of_entry(es, index_of(es, name));
        }
    }
    if map_clean(m) {
        assert forall|i: int| 0 <= i < es.len() implies is_clean(
            (#[trigger] es[i]).name,
            es[i].alias.value,
        ) by {
            lemma_map_of_entry(es, i);
            assert(is_clean(es[i].name, m[es[i].name].value));
        }
    }
}

/// In a sorted sequence each entry is the only one of its name, and the map
/// gives its alias.
pub proof fn lemma_map_of_entry(es: Seq<EntryView>, i: int)
    requires
        sorted_by_name(es),
        0 <= i < es.len(),
    ensures
        has_name(es, es[i].name),
        index_of(es, es[i].name) == i,
        map_of(es).contains_key(es[i].name),
        map_of(es)[es[i].name] == es[i].alias,
{
    let j = index_of(es, es[i].name);
    lemma_lex_irreflexive(es[i].name);
    if j < i {
        assert(lex_less(es[j].name, es[i].name));
    } else if i < j {
        assert(lex_less(es[i].name, es[j].name));
    }
}

/// A name that falls strictly between the entries before `at` and the entry
/// at `at` is not in a sorted sequence.
pub proof fn lemma_absent(es: Seq<EntryView>, name: Seq<char>, at: int)
    requires
        sorted_by_name(es),
        0 <= at <= es.len(),
        forall|j: int| 0 <= j < at ==> lex_less(#[trigger] es[j].name, name),
        at < es.len() ==> lex_less(name, es[at].name),
    ensures
        !has_name(es, name),
        !map_of(es).contains_key(name),
{
    lemma_lex_irreflexive(name);
    assert forall|j: int| 0 <= j < es.len() implies #[trigger] es[j].name != name by {
        if j > at {
            lemma_lex_transitive(name, es[at].name, es[j].name);
        }
    }
}

/// Putting a new name at its place keeps the order and adds one pair to the
/// map.
pub proof fn lemma_insert_new(es: Seq<EntryView>, e: EntryView, at: int)
    requires
        sorted_by_name(es),
        0 <= at <= es.len(),
        forall|j: int| 0 <= j < at ==> lex_less(#[trigger] es[j].name, e.name),
        at < es.len() ==> lex_less(e.name, es[at].name),
    ensures
        sorted_by_name(es.insert(at, e)),
        map_of(es.insert(at, e)) == map_of(es).insert(e.name, e.alias),
{
    let es2 = es.insert(at, e);
    assert forall|i: int, j: int| 0 <= i < j < es2.len() implies lex_less(
        #[trigger] es2[i].name,
        #[trigger] es2[j].name,
    ) by {
        if j == at {
            assert(es2[i] == es[i]);
        } else if i == at {
            assert(es2[j] == es[j - 1]);
            if j - 1 > at {
                lemma_lex_transitive(e.name, es[at].name, es[j - 1].name);
            }
        } else if i < at && j > at {
            assert(es2[i] == es[i] && es2[j] == es[j - 1]);
            if j - 1 > at {
                lemma_lex_transitive(e.name, es[at].name, es[j - 1].name);
            }
            lemma_lex_transitive(es[i].name, e.name, es2[j].name);
        } else if j < at {
            assert(es2[i] == es[i] && es2[j] == es[j]);
        } else {
            assert(es2[i] == es[i - 1] && es2[j] == es[j - 1]);
        }
    }
    lemma_absent(es, e.name, at);
    let m2 = map_of(es2);
    let m = map_of(es).insert(e.name, e.alias);
    assert forall|k: Seq<char>| m2.contains_key(k) <==> m.contains_key(k) by {
        if has_name(es2, k) {
            let i = index_of(es2, k);
            if i < at {
                assert(es[i].name == k);
            } else if i > at {
                assert(es[i - 1].name == k);
            }
        }
        if has_name(es, k) {
            let i = index_of(es, k);
            if i < at {
                assert(es2[i].name == k);
            } else {
                assert(es2[i + 1].name == k);
            }
        }
        if k == e.name {
            assert(es2[at].name == k);
        }
    }
    assert forall|k: Seq<char>| m2.contains_key(k) implies m2[k] == m[k] by {
        let i = index_of(es2, k);
        lemma_map_of_entry(es2, i);
        if i < at {
            assert(es2[i] == es[i]);
            lemma_map_of_entry(es, i);
        } else if i > at {
            assert(es2[i] == es[i - 1]);
            lemma_map_of_entry(es, i - 1);
        }
    }
    assert(m2 =~= m);
}

/// Giving a name that is there a new alias keeps the order and changes one
/// pair of the map.
pub proof fn lemma_replace(es: Seq<EntryView>, e: EntryView, at: int)
    requires
        sorted_by_name(es),
        0 <= at < es.len(),
        es[at].name == e.name,
    ensures
        sorted_by_name(es.update(at, e)),
        map_of(es.update(at, e)) == map_of(es).insert(e.name, e.alias),
{
    let es2 = es.update(at, e);
    assert forall|i: int, j: int| 0 <= i < j < es2.len() implies lex_less(
        #[trigger] es2[i].name,
        #[trigger] es2[j].name,
    ) by {
        assert(es2[i].name == es[i].name && es2[j].name == es[j].name);
    }
    let m2 = map_of(es2);
    let m = map_of(es).insert(e.name, e.alias);
    assert forall|k: Seq<char>| m2.contains_key(k) <==> m.contains_key(k) by {
        if has_name(es2, k) {
            let i = index_of(es2, k);
            assert(es[i].name == k);
        }
        if has_name(es, k) {
            let i = index_of(es, k);
            assert(es2[i].name == k);
        }
        if k == e.name {
            assert(es2[at].name == k);
        }
    }
    assert forall|k: Seq<char>| m2.contains_key(k) implies m2[k] == m[k] by {
        let i = index_of(es2, k);
        lemma_map_of_entry(es2, i);
        if i != at {
            assert(es2[i] == es[i]);
            lemma_map_of_entry(es, i);
            lemma_map_of_entry(es, at);
        }
    }
    assert(m2 =~= m);
}

/// A set of aliases in which each name occurs once. Its view is the map from
/// names to aliases; `entries` gives the same pairs in the order of their
/// names, which is the order in which they are written out.
#[derive(Debug)]
pub struct AliasMap {
    entries: Vec<Entry>,
}

impl View for AliasMap {
    type V = Map<Seq<char>, AliasView>;

    open spec fn view(&self) -> Map<Seq<char>, AliasView> {
        map_of(self.entries())
    }
}

impl AliasMap {
    /// The pairs of this set, in the order of their names.
    pub closed spec fn entries(&self) -> Seq<EntryView> {
        self.entries@.map_values(|e: Entry| e@)
    }

    /// The names ascend strictly: this is what every function of the type
    /// keeps.
    pub open spec fn wf(&self) -> bool {
        sorted_by_name(self.entries())
    }

    /// The empty set.
    pub fn new() -> (r: AliasMap)
        ensures
            r.wf(),
            r.entries() == Seq::<EntryView>::empty(),
            r@ == Map::<Seq<char>, AliasView>::empty(),
    {
        let r = AliasMap { entries: Vec::new() };
        proof {
            assert(r.entries() =~= Seq::<EntryView>::empty());
            assert(r@ =~= Map::<Seq<char>, AliasView>::empty());
        }
        r
    }

    /// The number of aliases.
    pub fn len(&self) -> (n: usize)
        ensures
            n == self.entries().len(),
    {
        self.entries.len()
    }

    /// The name of the alias at place `i` in the order of names.
    pub fn name_at(&self, i: usize) -> (name: &str)
        requires
            i < self.entries().len(),
        ensures
            name@ == self.entries()[i as int].name,
    {
        self.entries[i].name.as_str()
    }

    /// The alias at place `i` in the order of names.
    pub fn alias_at(&self, i: usize) -> (alias: &Alias)
        requires
            i < self.entries().len(),
        ensures
            alias@ == self.entries()[i as int].alias,
    {
        &self.entries[i].alias
    }

    /// The place of `name`, and whether it is there: the first index whose
    /// name does not come before `name`.
    fn locate(&self, name: &Vec<char>) -> (r: (usize, bool))
        ensures
            r.0 <= self.entries().len(),
            forall|j: int| 0 <= j < r.0 ==> lex_less(#[trigger] self.entries()[j].name, name@),
            r.1 ==> r.0 < self.entries().len() && self.entries()[r.0 as int].name == name@,
            !r.1 && r.0 < self.entries().len() ==> lex_less(
                name@,
                self.entries()[r.0 as int].name,
            ),
    {
        let mut i: usize = 0;
        while i < self.entries.len()
            invariant
                i <= self.entries().len(),
                self.entries().len() == self.entries@.len(),
                forall|j: int| 0 <= j < i ==> lex_less(#[trigger] self.entries()[j].name, name@),
            decreases self.entries.len() - i,
        {
            let here = chars_of(self.entries[i].name.as_str());
            match rank(&here, name) {
                Rank::Before => {
                    i += 1;
                },
                Rank::Same => {
                    return (i, true);
                },
                Rank::After => {
                    return (i, false);
                },
            }
        }
        (i, false)
    }

    /// The alias stored under `name`, if there is one.
    pub fn get(&self, name: &str) -> (r: Option<&Alias>)
        requires
            self.wf(),
        ensures
            match r {
                Some(alias) => self@.contains_key(name@) && alias@ == self@[name@],
                None => !self@.contains_key(name@),
            },
    {
        let key = chars_of(name);
        let (at, found) = self.locate(&key);
        if found {
            proof {
                lemma_map_of_entry(self.entries(), at as int);
            }
            Some(&self.entries[at].alias)
        } else {
            proof {
                lemma_absent(self.entries(), name@, at as int);
            }
            None
        }
    }

    /// Stores `alias` under `name`, in place of what was stored there.
    pub fn insert(&mut self, name: String, alias: Alias)
        requires
            old(self).wf(),
        ensures
            final(self).wf(),
            final(self)@ == old(self)@.insert(name@, alias@),
    {
        let key = chars_of(name.as_str());
        let (at, found) = self.locate(&key);
        let entry = Entry { name, alias };
        proof {
            let es = self.entries();
            if found {
                lemma_replace(es, entry@, at as int);
                assert(self.entries@.update(at as int, entry).map_values(|e: Entry| e@) =~= es.update(
                    at as int,
                    entry@,
                ));
            } else {
                lemma_insert_new(es, entry@, at as int);
                assert(self.entries@.insert(at as int, entry).map_values(|e: Entry| e@) =~= es.insert(
                    at as int,
                    entry@,
                ));
            }
        }
        if found {
            self.entries.set(at, entry);
        } else {
            self.entries.insert(at, entry);
        }
    }
}

impl Clone for AliasMap {
    fn clone(&self) -> (r: Self)
        ensures
            r.entries() == self.entries(),
    {
        let mut entries: Vec<Entry> = Vec::new();
        let mut i: usize = 0;
        while i < self.entries.len()
            invariant
                i <= self.entries.len(),
                entries@.len() == i,
                forall|j: int| 0 <= j < i ==> entries@[j]@ == self.entries@[j]@,
            decreases self.entries.len() - i,
        {
            let e = &self.entries[i];
            entries.push(Entry { name: e.name.clone(), alias: e.alias.clone() });
            i += 1;
        }
        let r = AliasMap { entries };
        proof {
            assert(r.entries() =~= self.entries());
        }
        r
    }
}

} // verus!
