//! The merge compiler: the aliases of the managed block on disk and the
//! aliases collected from the files become the set that is written out.
//!
//! Like the collector, a merge never asks the user itself. It stops at a
//! conflict that is the user's to decide and goes on when the answer is
//! supplied.

use crate::alias::{is_clean, Alias, AliasView};
use crate::alias_map::{
    all_clean, index_of, lemma_map_of_entry, map_clean, map_of, sorted_by_name, AliasMap,
    EntryView,
};
use crate::conflict::{
    conflict_view, settle_conflict, settled, Conflict, ConflictType, ConflictView,
    ResolutionState,
};
use vstd::prelude::*;

verus! {

/// The state of a merge as plain values.
pub struct MergeView {
    /// The aliases of the managed block on disk.
    pub old: Map<Seq<char>, AliasView>,
    /// The collected aliases, in the order of their names.
    pub incoming: Seq<EntryView>,
    /// How many of the collected aliases have been taken up.
    pub next: nat,
    /// The merged set as it stands.
    pub merged: Map<Seq<char>, AliasView>,
    /// The switches of the conflict engine.
    pub state: ResolutionState,
    /// The conflict that waits for the user's answer.
    pub waiting: Option<ConflictView>,
}

impl MergeView {
    /// The state in which a merge begins: the merged set is the set on disk.
    pub open spec fn start(
        old: Map<Seq<char>, AliasView>,
        incoming: Seq<EntryView>,
        state: ResolutionState,
    ) -> MergeView {
        MergeView { old, incoming, next: 0, merged: old, state, waiting: None }
    }

    /// No conflict waits and every collected alias has been taken up.
    pub open spec fn finished(self) -> bool {
        self.waiting is None && self.next >= self.incoming.len()
    }

    /// One step: the next collected alias is taken up. A new name is stored.
    /// A name that is on disk with the same value stays as it is on disk. A
    /// name that is on disk with another value takes the collected value,
    /// unless the run was started with auto-confirm: then, and only then, the
    /// conflict is put to the user. The switches that earlier answers have
    /// set are not consulted.
    pub open spec fn step(self) -> MergeView {
        if self.next < self.incoming.len() {
            let e = self.incoming[self.next as int];
            let taken = MergeView { next: self.next + 1, ..self };
            if !self.old.contains_key(e.name) {
                MergeView { merged: self.merged.insert(e.name, e.alias), ..taken }
            } else if self.old[e.name].value == e.alias.value {
                taken
            } else if self.state.auto_confirm {
                MergeView {
                    waiting: Some(
                        ConflictView {
                            name: e.name,
                            current: self.old[e.name],
                            incoming: e.alias,
                            kind: ConflictType::WriteNew,
                        },
                    ),
                    ..taken
                }
            } else {
                MergeView { merged: self.merged.insert(e.name, e.alias), ..taken }
            }
        } else {
            self
        }
    }

    /// Steps taken until a conflict waits or every collected alias has been
    /// taken up.
    pub open spec fn run(self) -> MergeView
        decreases self.incoming.len() - self.next,
    {
        if self.waiting is Some || self.next >= self.incoming.len() {
            self
        } else {
            self.step().run()
        }
    }

    /// The state after the user's answer to the conflict that waits.
    pub open spec fn answered(self, answer: Seq<char>) -> MergeView {
        match self.waiting {
            Some(conflict) => {
                let (merged, state) = settled(self.merged, self.state, conflict, answer);
                MergeView { merged, state, waiting: None, ..self }
            },
            None => self,
        }
    }

    /// The names of the collected aliases that have been taken up.
    pub open spec fn taken_names(self) -> Set<Seq<char>> {
        Set::new(|name: Seq<char>| exists|j: int| 0 <= j < self.next && #[trigger] self.incoming[j].name == name)
    }

    /// What holds of a merge at every moment. The collected aliases are in
    /// the order of their names. Without auto-confirm no conflict ever waits,
    /// and a name with two values has the collected one. The merged set holds the names
    /// on disk and the names taken up, and no others. A name that has not
    /// been taken up has the alias that it has on disk. A name that has been
    /// taken up has the collected alias or the one on disk; it has the one on
    /// disk where both have the same value, and where the name is new it has
    /// the collected one. The conflict that waits is about the alias taken up
    /// last, whose value differs from the one on disk.
    pub open spec fn inv(self) -> bool {
        &&& sorted_by_name(self.incoming)
        &&& self.next <= self.incoming.len()
        &&& !self.state.auto_confirm ==> self.waiting is None
        &&& self.merged.dom() == self.old.dom().union(self.taken_names())
        &&& forall|name: Seq<char>|
            self.old.contains_key(name) && !self.taken_names().contains(name)
                ==> #[trigger] self.merged[name] == self.old[name]
        &&& forall|j: int|
            0 <= j < self.next ==> {
                let e = #[trigger] self.incoming[j];
                if !self.old.contains_key(e.name) {
                    self.merged[e.name] == e.alias
                } else if self.old[e.name].value == e.alias.value {
                    self.merged[e.name] == self.old[e.name]
                } else {
                    &&& self.merged[e.name] == e.alias || self.merged[e.name] == self.old[e.name]
                    &&& !self.state.auto_confirm ==> self.merged[e.name] == e.alias
                }
            }
        &&& self.waiting matches Some(c) ==> {
            &&& self.next > 0
            &&& c.name == self.incoming[self.next - 1].name
            &&& c.incoming == self.incoming[self.next - 1].alias
            &&& self.old.contains_key(c.name)
            &&& c.current == self.old[c.name]
            &&& c.current.value != c.incoming.value
            &&& c.kind == ConflictType::WriteNew
        }
    }
}

/// The names of a sorted sequence are all different.
proof fn lemma_names_differ(es: Seq<EntryView>, i: int, j: int)
    requires
        sorted_by_name(es),
        0 <= i < es.len(),
        0 <= j < es.len(),
        i != j,
    ensures
        es[i].name != es[j].name,
{
    lemma_map_of_entry(es, i);
    lemma_map_of_entry(es, j);
}

/// A merge begins in a state that satisfies `inv`.
pub proof fn lemma_start_inv(
    old: Map<Seq<char>, AliasView>,
    incoming: Seq<EntryView>,
    state: ResolutionState,
)
    requires
        sorted_by_name(incoming),
    ensures
        MergeView::start(old, incoming, state).inv(),
{
    let v = MergeView::start(old, incoming, state);
    assert(v.merged.dom() =~= v.old.dom().union(v.taken_names()));
}

/// A step keeps `inv`.
pub proof fn lemma_step_inv(v: MergeView)
    requires
        v.inv(),
        v.waiting is None,
    ensures
        v.step().inv(),
{
    let w = v.step();
    if v.next < v.incoming.len() {
        let e = v.incoming[v.next as int];
        assert(w.taken_names() =~= v.taken_names().insert(e.name));
        assert(!v.taken_names().contains(e.name)) by {
            if v.taken_names().contains(e.name) {
                let j = choose|j: int| 0 <= j < v.next && #[trigger] v.incoming[j].name == e.name;
                lemma_names_differ(v.incoming, j, v.next as int);
            }
        }
        assert(w.merged.dom() =~= w.old.dom().union(w.taken_names()));
        assert forall|j: int| 0 <= j < v.next implies (#[trigger] v.incoming[j]).name
            != e.name by {
            lemma_names_differ(v.incoming, j, v.next as int);
        }
    }
}

/// A run keeps `inv`, and ends with a conflict waiting or with every
/// collected alias taken up.
pub proof fn lemma_run_inv(v: MergeView)
    requires
        v.inv(),
    ensures
        v.run().inv(),
        v.run().waiting is None ==> v.run().finished(),
        v.run().old == v.old,
        v.run().incoming == v.incoming,
        v.run().state == v.state,
    decreases v.incoming.len() - v.next,
{
    if v.waiting is Some || v.next >= v.incoming.len() {
    } else {
        lemma_step_inv(v);
        lemma_run_inv(v.step());
    }
}

/// An answer keeps `inv`.
pub proof fn lemma_answered_inv(v: MergeView, answer: Seq<char>)
    requires
        v.inv(),
    ensures
        v.answered(answer).inv(),
{
    let w = v.answered(answer);
    if let Some(c) = v.waiting {
        assert(v.taken_names().contains(c.name));
        assert(w.taken_names() =~= v.taken_names());
        assert(w.merged.dom() =~= w.old.dom().union(w.taken_names()));
        assert forall|j: int| 0 <= j < v.next - 1 implies (#[trigger] v.incoming[j]).name
            != c.name by {
            lemma_names_differ(v.incoming, j, v.next - 1);
        }
    }
}

/// Every name of either input is in the finished merge, and no other name
/// is. A name that only the disk has keeps its alias; a name that only the
/// files have gets theirs; a name that both have with one value keeps the
/// alias on disk; a name that both have with two values has one of the two,
/// and without auto-confirm the collected one.
pub proof fn lemma_finished_merge(v: MergeView)
    requires
        v.inv(),
        v.finished(),
    ensures
        forall|name: Seq<char>|
            v.merged.contains_key(name) <==> v.old.contains_key(name) || map_of(
                v.incoming,
            ).contains_key(name),
        forall|name: Seq<char>|
            v.old.contains_key(name) && !map_of(v.incoming).contains_key(name)
                ==> #[trigger] v.merged[name] == v.old[name],
        forall|name: Seq<char>|
            #![trigger v.merged[name]]
            map_of(v.incoming).contains_key(name) ==> {
                let new = map_of(v.incoming)[name];
                if !v.old.contains_key(name) {
                    v.merged[name] == new
                } else if v.old[name].value == new.value {
                    v.merged[name] == v.old[name]
                } else if v.state.auto_confirm {
                    v.merged[name] == new || v.merged[name] == v.old[name]
                } else {
                    v.merged[name] == new
                }
            },
{
    assert forall|name: Seq<char>| v.taken_names().contains(name) <==> map_of(
        v.incoming,
    ).contains_key(name) by {
        if map_of(v.incoming).contains_key(name) {
            let j = index_of(v.incoming, name);
            assert(v.incoming[j].name == name);
        }
    }
    assert forall|name: Seq<char>|
        v.merged.contains_key(name) <==> v.old.contains_key(name) || map_of(
            v.incoming,
        ).contains_key(name) by {
        assert(v.merged.dom().contains(name) <==> v.old.dom().union(v.taken_names()).contains(
            name,
        ));
    }
    assert forall|name: Seq<char>|
        #![trigger v.merged[name]]
        map_of(v.incoming).contains_key(name) implies {
        let new = map_of(v.incoming)[name];
        if !v.old.contains_key(name) {
            v.merged[name] == new
        } else if v.old[name].value == new.value {
            v.merged[name] == v.old[name]
        } else if v.state.auto_confirm {
            v.merged[name] == new || v.merged[name] == v.old[name]
        } else {
            v.merged[name] == new
        }
    } by {
        let j = index_of(v.incoming, name);
        lemma_map_of_entry(v.incoming, j);
        assert(v.incoming[j].name == name);
    }
}

/// A merge of clean sets is clean.
pub proof fn lemma_merge_keeps_clean(v: MergeView)
    requires
        v.inv(),
        map_clean(v.old),
        all_clean(v.incoming),
    ensures
        map_clean(v.merged),
{
    assert forall|name: Seq<char>| v.merged.contains_key(name) implies is_clean(
        name,
        (#[trigger] v.merged[name]).value,
    ) by {
        assert(v.old.dom().union(v.taken_names()).contains(name));
        if v.taken_names().contains(name) {
            let j = choose|j: int| 0 <= j < v.next && #[trigger] v.incoming[j].name == name;
            assert(is_clean(v.incoming[j].name, v.incoming[j].alias.value));
            if v.old.contains_key(name) {
                assert(is_clean(name, v.old[name].value));
            }
        } else {
            assert(is_clean(name, v.old[name].value));
        }
    }
}

/// A merge in progress.
#[derive(Debug)]
pub struct Merger {
    old: AliasMap,
    incoming: AliasMap,
    next: usize,
    merged: AliasMap,
    state: ResolutionState,
    waiting: Option<Conflict>,
}

impl View for Merger {
    type V = MergeView;

    closed spec fn view(&self) -> MergeView {
        MergeView {
            old: self.old@,
            incoming: self.incoming.entries(),
            next: self.next as nat,
            merged: self.merged@,
            state: self.state,
            waiting: conflict_view(self.waiting),
        }
    }
}

impl Merger {
    /// What every function of the type keeps: the parts are in order, and
    /// the view satisfies `inv`.
    pub closed spec fn wf(&self) -> bool {
        &&& self.old.wf()
        &&& self.incoming.wf()
        &&& self.merged.wf()
        &&& self@.inv()
    }

    /// A merge of the collected aliases `new` into the aliases `old` of the
    /// managed block on disk, with nothing taken up yet.
    pub fn new(old: AliasMap, new: AliasMap, state: ResolutionState) -> (r: Merger)
        requires
            old.wf(),
            new.wf(),
        ensures
            r.wf(),
            r@ == MergeView::start(old@, new.entries(), state),
    {
        proof {
            lemma_start_inv(old@, new.entries(), state);
        }
        let merged = old.clone();
        Merger { old, incoming: new, next: 0, merged, state, waiting: None }
    }

    /// Works until a conflict is the user's to decide, and returns it.
    /// `None` is returned when the merge is complete.
    pub fn advance(&mut self) -> (r: Option<Conflict>)
        requires
            old(self).wf(),
        ensures
            final(self).wf(),
            final(self)@ == old(self)@.run(),
            final(self)@.inv(),
            conflict_view(r) == final(self)@.waiting,
            r is None ==> final(self)@.finished(),
    {
        let ghost start = self@;
        proof {
            lemma_run_inv(start);
        }
        loop
            invariant
                self.wf(),
                self@.run() == start.run(),
            ensures
                self.wf(),
                self@ == start.run(),
            decreases self@.incoming.len() - self@.next,
        {
            let ghost before = self@;
            if self.waiting.is_some() || self.next >= self.incoming.len() {
                break ;
            }
            let name = self.incoming.name_at(self.next);
            let alias = self.incoming.alias_at(self.next);
            let found: Option<Alias> = match self.old.get(name) {
                Some(current) => Some(current.clone()),
                None => None,
            };
            match found {
                None => {
                    self.merged.insert(String::from_str(name), alias.clone());
                },
                Some(current) => {
                    if current.value == alias.value {
                    } else if self.state.auto_confirm {
                        self.waiting = Some(
                            Conflict {
                                name: String::from_str(name),
                                current,
                                incoming: alias.clone(),
                                kind: ConflictType::WriteNew,
                            },
                        );
                    } else {
                        self.merged.insert(String::from_str(name), alias.clone());
                    }
                },
            }
            self.next = self.next + 1;
            proof {
                assert(self@ == before.step());
                lemma_step_inv(before);
            }
        }
        self.waiting.clone()
    }

    /// Supplies the user's answer to the conflict that waits. Returns whether
    /// one waited; if none did, nothing changes.
    pub fn answer(&mut self, answer: &str) -> (accepted: bool)
        requires
            old(self).wf(),
        ensures
            final(self).wf(),
            final(self)@.inv(),
            final(self)@ == old(self)@.answered(answer@),
            accepted == (old(self)@.waiting is Some),
    {
        proof {
            lemma_answered_inv(self@, answer@);
        }
        match self.waiting.take() {
            Some(conflict) => {
                settle_conflict(&mut self.merged, &mut self.state, &conflict, answer);
                true
            },
            None => false,
        }
    }

    /// The switches of the conflict engine as they stand.
    pub fn state(&self) -> (r: ResolutionState)
        ensures
            r == self@.state,
    {
        self.state
    }

    /// Ends the merge and hands out the merged set.
    pub fn finish(self) -> (r: AliasMap)
        requires
            self.wf(),
        ensures
            r.wf(),
            r@ == self@.merged,
    {
        self.merged
    }
}

/// Merges the collected aliases `new` into the aliases `old` of the managed
/// block on disk, as far as it goes without the user. Without auto-confirm
/// that is all the way: the merge that is returned is complete. With
/// auto-confirm it stops at the first name that has two values, and
/// `conflict` holds what to ask.
pub fn compile_new_aliases(old: AliasMap, new: AliasMap, state: ResolutionState) -> (r: (
    Merger,
    Option<Conflict>,
))
    requires
        old.wf(),
        new.wf(),
    ensures
        r.0.wf(),
        r.0@ == MergeView::start(old@, new.entries(), state).run(),
        r.0@.inv(),
        conflict_view(r.1) == r.0@.waiting,
        r.1 is None ==> r.0@.finished(),
        !state.auto_confirm ==> r.1 is None,
{
    let mut merger = Merger::new(old, new, state);
    proof {
        lemma_run_inv(merger@);
    }
    let conflict = merger.advance();
    (merger, conflict)
}

} // verus!
