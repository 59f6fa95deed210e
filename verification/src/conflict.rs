//! The conflict engine: what happens when a name is already taken by another
//! value, what the user may answer, and what each answer does.

use crate::alias::{parse_alias_line, parsed_alias, Alias, AliasSource, AliasView, SourceView};
use crate::alias_map::AliasMap;
use crate::text::{chars_of, trim, trim_between};
use vstd::prelude::*;

verus! {

/// The two places where a name can meet a second value.
#[derive(Clone, Copy, Debug, PartialEq, Eq, Structural)]
pub enum ConflictType {
    /// At the final merge: the managed block on disk holds one value, the
    /// alias files another.
    WriteNew,
    /// While the alias files are read: an earlier line gave one value, a
    /// later line gives another.
    CacheIncoming,
}

/// What the user can answer when asked about a conflict.
#[derive(Clone, Copy, Debug, PartialEq, Eq, Structural)]
pub enum Choice {
    /// Take the incoming value.
    Overwrite,
    /// Keep the current value.
    Keep,
    /// Keep the current value, now and in every later conflict.
    IgnoreAll,
    /// Take the incoming value, now and in every later conflict.
    AcceptAll,
}

impl Choice {
    /// Whether this answer puts the incoming value in place of the current
    /// one.
    pub open spec fn takes_new(self) -> bool {
        self == Choice::Overwrite || self == Choice::AcceptAll
    }
}

/// The choice that an answer stands for. The answer is trimmed; `n`, `i` and
/// `a`, in either case, mean keep, ignore all and accept all. Every other
/// answer, `y` among them, means overwrite.
pub open spec fn choice_of(answer: Seq<char>) -> Choice {
    let key = trim(answer);
    if key.len() != 1 {
        Choice::Overwrite
    } else if key[0] == 'n' || key[0] == 'N' {
        Choice::Keep
    } else if key[0] == 'i' || key[0] == 'I' {
        Choice::IgnoreAll
    } else if key[0] == 'a' || key[0] == 'A' {
        Choice::AcceptAll
    } else {
        Choice::Overwrite
    }
}

/// Reads an answer as a choice.
pub fn read_choice(answer: &str) -> (choice: Choice)
    ensures
        choice == choice_of(answer@),
{
    let text = chars_of(answer);
    proof {
        assert(text@.subrange(0, text.len() as int) =~= text@);
    }
    let (a, b) = trim_between(&text, 0, text.len());
    if b - a != 1 {
        return Choice::Overwrite;
    }
    let c = text[a];
    assert(text@.subrange(a as int, b as int)[0] == c);
    if c == 'n' || c == 'N' {
        Choice::Keep
    } else if c == 'i' || c == 'I' {
        Choice::IgnoreAll
    } else if c == 'a' || c == 'A' {
        Choice::AcceptAll
    } else {
        Choice::Overwrite
    }
}

/// The three switches that decide a conflict without asking. The first two
/// are set by an answer and stay set; the third is given at the start and
/// never changes.
#[derive(Clone, Copy, Debug, PartialEq, Eq, Structural)]
pub struct ResolutionState {
    /// Keep the current value in every conflict between alias files.
    pub ignore_future_conflicts: bool,
    /// Take the incoming value in every conflict between alias files.
    pub accept_all_new: bool,
    /// The run was started with the request not to be asked.
    pub auto_confirm: bool,
}

impl ResolutionState {
    /// The state at the start of a run.
    pub fn new(auto_confirm: bool) -> (state: ResolutionState)
        ensures
            state == (ResolutionState {
                ignore_future_conflicts: false,
                accept_all_new: false,
                auto_confirm,
            }),
    {
        ResolutionState { ignore_future_conflicts: false, accept_all_new: false, auto_confirm }
    }

    /// The state after the user has made `choice`.
    pub open spec fn after(self, choice: Choice) -> ResolutionState {
        ResolutionState {
            ignore_future_conflicts: self.ignore_future_conflicts || choice == Choice::IgnoreAll,
            accept_all_new: self.accept_all_new || choice == Choice::AcceptAll,
            auto_confirm: self.auto_confirm,
        }
    }

    /// `later` can follow `self` in one run: no switch has gone back, and
    /// the third is as it was.
    pub open spec fn precedes(self, later: ResolutionState) -> bool {
        &&& self.ignore_future_conflicts ==> later.ignore_future_conflicts
        &&& self.accept_all_new ==> later.accept_all_new
        &&& self.auto_confirm == later.auto_confirm
    }
}

/// No answer resets a switch: the state after any choice can follow the state
/// before it.
pub proof fn lemma_switches_stay(state: ResolutionState, choice: Choice)
    ensures
        state.precedes(state.after(choice)),
        state.after(choice).after(choice) == state.after(choice),
{
}

/// Decides a conflict from the user's answer. The incoming alias is returned
/// where it is to replace the current one, and `None` where the current one
/// stays. The answers that speak for all later conflicts set their switch in
/// `state`.
pub fn conflict_resolver(state: &mut ResolutionState, new_val: &Alias, answer: &str) -> (r: Option<
    Alias,
>)
    ensures
        *final(state) == old(state).after(choice_of(answer@)),
        old(state).precedes(*final(state)),
        match r {
            Some(alias) => choice_of(answer@).takes_new() && alias == *new_val,
            None => !choice_of(answer@).takes_new(),
        },
{
    match read_choice(answer) {
        Choice::Overwrite => Some(new_val.clone()),
        Choice::Keep => None,
        Choice::IgnoreAll => {
            state.ignore_future_conflicts = true;
            None
        },
        Choice::AcceptAll => {
            state.accept_all_new = true;
            Some(new_val.clone())
        },
    }
}

/// A conflict that only the user can decide: the name, the alias that holds
/// it now, and the alias that wants it.
#[derive(Debug, PartialEq, Eq)]
pub struct Conflict {
    pub name: String,
    pub current: Alias,
    pub incoming: Alias,
    pub kind: ConflictType,
}

/// A `Conflict` as a plain value.
pub struct ConflictView {
    pub name: Seq<char>,
    pub current: AliasView,
    pub incoming: AliasView,
    pub kind: ConflictType,
}

impl View for Conflict {
    type V = ConflictView;

    open spec fn view(&self) -> ConflictView {
        ConflictView {
            name: self.name@,
            current: self.current@,
            incoming: self.incoming@,
            kind: self.kind,
        }
    }
}

impl Clone for Conflict {
    fn clone(&self) -> (r: Self)
        ensures
            r == *self,
    {
        Conflict {
            name: self.name.clone(),
            current: self.current.clone(),
            incoming: self.incoming.clone(),
            kind: self.kind,
        }
    }
}

/// The view of a conflict that may not be there.
pub open spec fn conflict_view(conflict: Option<Conflict>) -> Option<ConflictView> {
    match conflict {
        Some(c) => Some(c@),
        None => None,
    }
}

/// What a line of the file `path` does to the aliases collected so far. A
/// line that defines no alias does nothing. A new name is stored. A name that
/// is there with the same value stays. A name that is there with another
/// value is overwritten under `auto_confirm` or `accept_all_new`, stays
/// under `ignore_future_conflicts`, and is otherwise a conflict for the user,
/// with the set unchanged.
pub open spec fn cache_incoming(
    map: Map<Seq<char>, AliasView>,
    state: ResolutionState,
    path: Seq<char>,
    line: Seq<char>,
) -> (Map<Seq<char>, AliasView>, Option<ConflictView>) {
    match parsed_alias(line) {
        None => (map, None),
        Some((name, value)) => {
            let incoming = AliasView { value, source: SourceView::Path(path) };
            if !map.contains_key(name) {
                (map.insert(name, incoming), None)
            } else if map[name].value == value {
                (map, None)
            } else if state.auto_confirm || state.accept_all_new {
                (map.insert(name, incoming), None)
            } else if state.ignore_future_conflicts {
                (map, None)
            } else {
                (
                    map,
                    Some(
                        ConflictView {
                            name,
                            current: map[name],
                            incoming,
                            kind: ConflictType::CacheIncoming,
                        },
                    ),
                )
            }
        },
    }
}

/// Takes one line of the alias file `path` into `alias_map`, and returns the
/// conflict that the user has to decide, if the line raises one.
pub fn cache_incoming_aliases(
    path: &str,
    alias_map: &mut AliasMap,
    alias_line: &str,
    state: &ResolutionState,
) -> (r: Option<Conflict>)
    requires
        old(alias_map).wf(),
    ensures
        final(alias_map).wf(),
        (final(alias_map)@, conflict_view(r)) == cache_incoming(
            old(alias_map)@,
            *state,
            path@,
            alias_line@,
        ),
{
    let (name, incoming) = match parse_alias_line(
        alias_line,
        AliasSource::Path(String::from_str(path)),
    ) {
        Some(pair) => pair,
        None => {
            return None;
        },
    };
    let found: Option<Alias> = match alias_map.get(name.as_str()) {
        Some(current) => Some(current.clone()),
        None => None,
    };
    match found {
        None => {
            alias_map.insert(name, incoming);
            None
        },
        Some(current) => {
            if current.value == incoming.value {
                None
            } else if state.auto_confirm || state.accept_all_new {
                alias_map.insert(name, incoming);
                None
            } else if state.ignore_future_conflicts {
                None
            } else {
                Some(Conflict { name, current, incoming, kind: ConflictType::CacheIncoming })
            }
        },
    }
}

/// What a conflict and the user's answer to it do to a set of aliases and to
/// the switches.
pub open spec fn settled(
    map: Map<Seq<char>, AliasView>,
    state: ResolutionState,
    conflict: ConflictView,
    answer: Seq<char>,
) -> (Map<Seq<char>, AliasView>, ResolutionState) {
    let choice = choice_of(answer);
    (
        if choice.takes_new() {
            map.insert(conflict.name, conflict.incoming)
        } else {
            map
        },
        state.after(choice),
    )
}

/// Carries out the user's answer to `conflict`: the incoming alias is stored
/// where the answer takes it, and the switches follow the answer.
pub fn settle_conflict(
    alias_map: &mut AliasMap,
    state: &mut ResolutionState,
    conflict: &Conflict,
    answer: &str,
)
    requires
        old(alias_map).wf(),
    ensures
        final(alias_map).wf(),
        (final(alias_map)@, *final(state)) == settled(
            old(alias_map)@,
            *old(state),
            conflict@,
            answer@,
        ),
{
    match conflict_resolver(state, &conflict.incoming, answer) {
        Some(alias) => {
            alias_map.insert(conflict.name.clone(), alias);
        },
        None => {},
    }
}

} // verus!
